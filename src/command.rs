//! The command interpreter: from a wire value to a typed command, and from a
//! command run on the storage engine to the wire value it answers with.
use vstd::prelude::*;
use crate::engine::{
    after_read, clock_now, expiry_for, live_entry, ttl_of, StorageEngine, StoredValue, TimeToLive,
    NANOS_PER_SEC,
};
use crate::numeric::{parse_u64, u64_of_text};
use crate::protocol::{parsed, value_of, RespObject, RespValue};

verus! {

#[derive(Debug, PartialEq, Eq)]
pub struct GetCommand {
    pub key: String,
}

#[derive(Debug, PartialEq, Eq)]
pub struct SetCommand {
    pub key: String,
    pub value: String,
    pub expiry_seconds: Option<u64>,
}

#[derive(Debug, PartialEq, Eq)]
pub struct MsetCommand {
    pub commands: Vec<SetCommand>,
}

#[derive(Debug, PartialEq, Eq)]
pub struct MgetCommand {
    pub commands: Vec<GetCommand>,
}

#[derive(Debug, PartialEq, Eq)]
pub struct DelCommand {
    pub keys: Vec<String>,
}

#[derive(Debug, PartialEq, Eq)]
pub struct ExistsCommand {
    pub keys: Vec<String>,
}

/// A typed command.
#[derive(Debug, PartialEq, Eq)]
pub enum RespCommand {
    Ping,
    Echo { message: String },
    SetKey(SetCommand),
    Get(GetCommand),
    Ttl { key: String },
    Mset(MsetCommand),
    Mget(MgetCommand),
    Del(DelCommand),
    Exists(ExistsCommand),
}

/// A command built from a request.
#[derive(Debug, PartialEq, Eq)]
pub struct Command(pub RespCommand);

/// The mathematical form of a command.
pub enum CommandView {
    Ping,
    Echo(Seq<char>),
    Get(Seq<char>),
    SetKey(Seq<char>, Seq<char>, Option<u64>),
    Ttl(Seq<char>),
    Mset(Seq<(Seq<char>, Seq<char>, Option<u64>)>),
    Mget(Seq<Seq<char>>),
    Del(Seq<Seq<char>>),
    Exists(Seq<Seq<char>>),
}

pub open spec fn texts(v: Seq<String>) -> Seq<Seq<char>> {
    v.map_values(|s: String| s@)
}

pub open spec fn set_view(c: SetCommand) -> (Seq<char>, Seq<char>, Option<u64>) {
    (c.key@, c.value@, c.expiry_seconds)
}

impl View for RespCommand {
    type V = CommandView;

    open spec fn view(&self) -> CommandView {
        match self {
            RespCommand::Ping => CommandView::Ping,
            RespCommand::Echo { message } => CommandView::Echo(message@),
            RespCommand::SetKey(c) => CommandView::SetKey(c.key@, c.value@, c.expiry_seconds),
            RespCommand::Get(c) => CommandView::Get(c.key@),
            RespCommand::Ttl { key } => CommandView::Ttl(key@),
            RespCommand::Mset(c) => CommandView::Mset(c.commands@.map_values(|s: SetCommand| set_view(s))),
            RespCommand::Mget(c) => CommandView::Mget(c.commands@.map_values(|g: GetCommand| g.key@)),
            RespCommand::Del(c) => CommandView::Del(texts(c.keys@)),
            RespCommand::Exists(c) => CommandView::Exists(texts(c.keys@)),
        }
    }
}

impl View for Command {
    type V = CommandView;

    open spec fn view(&self) -> CommandView {
        self.0@
    }
}

/// What `str::to_lowercase` gives for the text `s`.
pub uninterp spec fn lower_of(s: Seq<char>) -> Seq<char>;

/// Relies on str::to_lowercase: the result depends on the characters alone.
#[verifier::external_body]
fn lowercase(s: &str) -> (r: String)
    ensures
        r@ == lower_of(s@),
{
    s.to_lowercase()
}

/// The error for a name that is no command: the name, quoted.
fn unknown_command_message(name: &str) -> (r: String)
    ensures
        r@ == "unknown command '"@ + name@ + "'"@,
{
    let head = "unknown command '".to_owned();
    let with_name = head.concat(name);
    with_name.concat("'")
}

/// The expiry that the option tokens of a SET, from index `i` on, give, the
/// last `EX` winning over `current`; or the error they raise.
pub open spec fn set_expiry(args: Seq<Seq<char>>, i: int, current: Option<u64>) -> Result<
    Option<u64>,
    Seq<char>,
>
    decreases args.len() - i,
{
    if i < 0 || i >= args.len() {
        Ok(current)
    } else if lower_of(args[i]) == "ex"@ {
        if i + 1 >= args.len() {
            Err("Wrong number of arguments for command"@)
        } else {
            match u64_of_text(vstd::utf8::encode_utf8(args[i + 1])) {
                Some(n) => set_expiry(args, i + 2, Some(n)),
                None => Err("value is not an integer or out of range"@),
            }
        }
    } else {
        Err("Wrong number of arguments for command"@)
    }
}

/// The command that the name `name` (lower-cased) and the tokens `args` after it
/// select, or the error they raise.
pub open spec fn command_of(name: Seq<char>, args: Seq<Seq<char>>) -> Result<CommandView, Seq<char>> {
    if name == "ping"@ {
        if args.len() == 0 {
            Ok(CommandView::Ping)
        } else {
            Err("Wrong number of arguments for 'ping' command"@)
        }
    } else if name == "echo"@ {
        if args.len() == 0 {
            Err("Not enough arguments for 'echo'"@)
        } else if args.len() > 1 {
            Err("Wrong number of arguments for 'echo' command"@)
        } else {
            Ok(CommandView::Echo(args[0]))
        }
    } else if name == "get"@ {
        if args.len() == 0 {
            Err("Not enough arguments for 'get'"@)
        } else if args.len() > 1 {
            Err("Wrong number of arguments for 'get' command"@)
        } else {
            Ok(CommandView::Get(args[0]))
        }
    } else if name == "set"@ {
        if args.len() < 2 {
            Err("Wrong number of arguments for command"@)
        } else {
            match set_expiry(args, 2, None) {
                Ok(ex) => Ok(CommandView::SetKey(args[0], args[1], ex)),
                Err(e) => Err(e),
            }
        }
    } else if name == "ttl"@ {
        if args.len() == 0 {
            Err("Not enough arguments for 'ttl'"@)
        } else if args.len() > 1 {
            Err("Wrong number of arguments for 'ttl' command"@)
        } else {
            Ok(CommandView::Ttl(args[0]))
        }
    } else if name == "mset"@ {
        if args.len() == 0 {
            Err("Wrong number of arguments for 'mset' command"@)
        } else if args.len() % 2 == 1 {
            Err("Not enough arguments for 'mset'"@)
        } else {
            Ok(
                CommandView::Mset(
                    Seq::new(args.len() / 2, |i: int| (args[2 * i], args[2 * i + 1], None::<u64>)),
                ),
            )
        }
    } else if name == "mget"@ {
        if args.len() == 0 {
            Err("Wrong number of arguments for 'mget' command"@)
        } else {
            Ok(CommandView::Mget(args))
        }
    } else if name == "del"@ {
        if args.len() == 0 {
            Err("Wrong number of arguments for 'del' command"@)
        } else {
            Ok(CommandView::Del(args))
        }
    } else if name == "exists"@ {
        if args.len() == 0 {
            Err("Wrong number of arguments for 'exists' command"@)
        } else {
            Ok(CommandView::Exists(args))
        }
    } else {
        Err("unknown command '"@ + name + "'"@)
    }
}

/// The command that a request value asks for, or the error it raises.
pub open spec fn interpret(v: RespValue) -> Result<CommandView, Seq<char>> {
    match v {
        RespValue::Array(items) => if items.len() == 0 {
            Err("Wrong number of arguments for command"@)
        } else if !(forall|k: int| 0 <= k < items.len() ==> (#[trigger] items[k]) is BulkString) {
            Err("Array should only contain BulkStrings"@)
        } else {
            command_of(
                lower_of(items[0]->BulkString_0),
                Seq::new((items.len() - 1) as nat, |i: int| items[i + 1]->BulkString_0),
            )
        },
        _ => Err("An Array of BulkStrings is expected"@),
    }
}

pub open spec fn command_result(r: Result<RespCommand, String>) -> Result<CommandView, Seq<char>> {
    match r {
        Ok(c) => Ok(c@),
        Err(e) => Err(e@),
    }
}

fn message(text: &str) -> (r: String)
    ensures
        r@ == text@,
{
    text.to_owned()
}

fn text_is(s: &String, text: &str) -> (r: bool)
    ensures
        r == (s@ == text@),
{
    let t = text.to_owned();
    *s == t
}

/// A copy of `v`.
fn copy_texts(v: &Vec<String>) -> (r: Vec<String>)
    ensures
        r@ == v@,
{
    let mut out: Vec<String> = Vec::new();
    let mut i: usize = 0;
    while i < v.len()
        invariant
            i <= v@.len(),
            out@ == v@.subrange(0, i as int),
        decreases v@.len() - i,
    {
        out.push(v[i].clone());
        i = i + 1;
        assert(out@ =~= v@.subrange(0, i as int));
    }
    assert(v@.subrange(0, i as int) =~= v@);
    out
}

impl GetCommand {
    pub fn from(key: String) -> (r: GetCommand)
        ensures
            r.key == key,
    {
        GetCommand { key }
    }
}

impl SetCommand {
    pub fn from_key_value(key_value: (String, String)) -> (r: SetCommand)
        ensures
            r.key == key_value.0,
            r.value == key_value.1,
            r.expiry_seconds is None,
    {
        SetCommand { key: key_value.0, value: key_value.1, expiry_seconds: None }
    }

    pub fn from(key_value: (String, String), expiry_seconds: Option<u64>) -> (r: SetCommand)
        ensures
            r.key == key_value.0,
            r.value == key_value.1,
            r.expiry_seconds == expiry_seconds,
    {
        SetCommand { key: key_value.0, value: key_value.1, expiry_seconds }
    }
}

impl MsetCommand {
    /// One SET without expiry for each pair, in order.
    pub fn from_key_values(key_values: Vec<(String, String)>) -> (r: MsetCommand)
        ensures
            r.commands@.len() == key_values@.len(),
            forall|i: int|
                0 <= i < key_values@.len() ==> set_view(#[trigger] r.commands@[i]) == (
                    key_values@[i].0@,
                    key_values@[i].1@,
                    None::<u64>,
                ),
    {
        let mut commands: Vec<SetCommand> = Vec::new();
        let mut i: usize = 0;
        while i < key_values.len()
            invariant
                i <= key_values@.len(),
                commands@.len() == i,
                forall|j: int|
                    0 <= j < i ==> set_view(#[trigger] commands@[j]) == (
                        key_values@[j].0@,
                        key_values@[j].1@,
                        None::<u64>,
                    ),
            decreases key_values@.len() - i,
        {
            let kv = (key_values[i].0.clone(), key_values[i].1.clone());
            commands.push(SetCommand::from_key_value(kv));
            i = i + 1;
        }
        MsetCommand { commands }
    }
}

impl MgetCommand {
    /// One GET for each key, in order.
    pub fn from_keys(keys: Vec<String>) -> (r: MgetCommand)
        ensures
            r.commands@.len() == keys@.len(),
            forall|i: int| 0 <= i < keys@.len() ==> (#[trigger] r.commands@[i]).key == keys@[i],
    {
        let mut commands: Vec<GetCommand> = Vec::new();
        let mut i: usize = 0;
        while i < keys.len()
            invariant
                i <= keys@.len(),
                commands@.len() == i,
                forall|j: int| 0 <= j < i ==> (#[trigger] commands@[j]).key == keys@[j],
            decreases keys@.len() - i,
        {
            commands.push(GetCommand::from(keys[i].clone()));
            i = i + 1;
        }
        MgetCommand { commands }
    }
}

impl DelCommand {
    pub fn from_keys(keys: Vec<String>) -> (r: DelCommand)
        ensures
            r.keys == keys,
    {
        DelCommand { keys }
    }
}

impl ExistsCommand {
    pub fn from_keys(keys: Vec<String>) -> (r: ExistsCommand)
        ensures
            r.keys == keys,
    {
        ExistsCommand { keys }
    }
}

/// Reads the option tokens of a SET, which start at index 2 of `args`.
fn read_set_options(args: &Vec<String>) -> (r: Result<Option<u64>, String>)
    requires
        args@.len() >= 2,
    ensures
        match r {
            Ok(ex) => set_expiry(texts(args@), 2, None) == Ok::<Option<u64>, Seq<char>>(ex),
            Err(e) => set_expiry(texts(args@), 2, None) == Err::<Option<u64>, Seq<char>>(e@),
        },
{
    let ghost a = texts(args@);
    let n = args.len();
    let mut i: usize = 2;
    let mut ex: Option<u64> = None;
    while i < n
        invariant
            2 <= i,
            n == args@.len(),
            a == texts(args@),
            set_expiry(a, 2, None) == set_expiry(a, i as int, ex),
        decreases n - i,
    {
        let option = lowercase(args[i].as_str());
        if text_is(&option, "ex") {
            if i + 1 >= n {
                return Err(message("Wrong number of arguments for command"));
            }
            match parse_u64(args[i + 1].as_str().as_bytes()) {
                Some(v) => {
                    ex = Some(v);
                    i = i + 2;
                },
                None => {
                    return Err(message("value is not an integer or out of range"));
                },
            }
        } else {
            return Err(message("Wrong number of arguments for command"));
        }
    }
    Ok(ex)
}

impl RespCommand {
    /// The command that the lower-cased name `name` and the tokens `args` after
    /// it select, or the error they raise.
    pub fn from_tokens(name: &String, args: &Vec<String>) -> (r: Result<RespCommand, String>)
        ensures
            command_result(r) == command_of(name@, texts(args@)),
    {
        let n = args.len();
        let ghost a = texts(args@);
        if text_is(name, "ping") {
            if n != 0 {
                Err(message("Wrong number of arguments for 'ping' command"))
            } else {
                Ok(RespCommand::Ping)
            }
        } else if text_is(name, "echo") {
            if n == 0 {
                Err(message("Not enough arguments for 'echo'"))
            } else if n > 1 {
                Err(message("Wrong number of arguments for 'echo' command"))
            } else {
                Ok(RespCommand::Echo { message: args[0].clone() })
            }
        } else if text_is(name, "get") {
            if n == 0 {
                Err(message("Not enough arguments for 'get'"))
            } else if n > 1 {
                Err(message("Wrong number of arguments for 'get' command"))
            } else {
                Ok(RespCommand::Get(GetCommand::from(args[0].clone())))
            }
        } else if text_is(name, "set") {
            if n < 2 {
                Err(message("Wrong number of arguments for command"))
            } else {
                match read_set_options(args) {
                    Ok(ex) => Ok(
                        RespCommand::SetKey(SetCommand::from((args[0].clone(), args[1].clone()), ex)),
                    ),
                    Err(e) => Err(e),
                }
            }
        } else if text_is(name, "ttl") {
            if n == 0 {
                Err(message("Not enough arguments for 'ttl'"))
            } else if n > 1 {
                Err(message("Wrong number of arguments for 'ttl' command"))
            } else {
                Ok(RespCommand::Ttl { key: args[0].clone() })
            }
        } else if text_is(name, "mset") {
            if n == 0 {
                Err(message("Wrong number of arguments for 'mset' command"))
            } else if n % 2 == 1 {
                Err(message("Not enough arguments for 'mset'"))
            } else {
                let mut key_values: Vec<(String, String)> = Vec::new();
                let mut i: usize = 0;
                while i < n / 2
                    invariant
                        n == args@.len(),
                        n % 2 == 0,
                        i <= n / 2,
                        key_values@.len() == i,
                        forall|j: int|
                            0 <= j < i ==> (#[trigger] key_values@[j]).0@ == args@[2 * j]@
                                && key_values@[j].1@ == args@[2 * j + 1]@,
                    decreases n / 2 - i,
                {
                    key_values.push((args[2 * i].clone(), args[2 * i + 1].clone()));
                    i = i + 1;
                }
                let cmd = MsetCommand::from_key_values(key_values);
                let r = RespCommand::Mset(cmd);
                assert(r@->Mset_0 =~= Seq::new(
                    a.len() / 2,
                    |k: int| (a[2 * k], a[2 * k + 1], None::<u64>),
                ));
                Ok(r)
            }
        } else if text_is(name, "mget") {
            if n == 0 {
                Err(message("Wrong number of arguments for 'mget' command"))
            } else {
                let r = RespCommand::Mget(MgetCommand::from_keys(copy_texts(args)));
                assert(r@->Mget_0 =~= a);
                Ok(r)
            }
        } else if text_is(name, "del") {
            if n == 0 {
                Err(message("Wrong number of arguments for 'del' command"))
            } else {
                Ok(RespCommand::Del(DelCommand::from_keys(copy_texts(args))))
            }
        } else if text_is(name, "exists") {
            if n == 0 {
                Err(message("Wrong number of arguments for 'exists' command"))
            } else {
                Ok(RespCommand::Exists(ExistsCommand::from_keys(copy_texts(args))))
            }
        } else {
            Err(unknown_command_message(name.as_str()))
        }
    }

    /// The command that a request value asks for: an array of bulk strings whose
    /// first names the command, case aside, and whose others are its arguments.
    pub fn from(input: RespObject) -> (r: Result<RespCommand, String>)
        ensures
            command_result(r) == interpret(input@),
    {
        match input {
            RespObject::Array(entries) => {
                let ghost items = input@->Array_0;
                if entries.len() == 0 {
                    return Err(message("Wrong number of arguments for command"));
                }
                let mut tokens: Vec<String> = Vec::new();
                let mut i: usize = 0;
                while i < entries.len()
                    invariant
                        i <= entries@.len(),
                        items == input@->Array_0,
                        input == RespObject::Array(entries),
                        items.len() == entries@.len(),
                        tokens@.len() == i,
                        forall|j: int|
                            0 <= j < i ==> (#[trigger] items[j]) is BulkString
                                && items[j]->BulkString_0 == tokens@[j]@,
                    decreases entries@.len() - i,
                {
                    assert(items[i as int] == value_of(entries@[i as int]));
                    match &entries[i] {
                        RespObject::BulkString(s) => {
                            tokens.push(s.clone());
                        },
                        _ => {
                            assert(!(items[i as int] is BulkString));
                            return Err(message("Array should only contain BulkStrings"));
                        },
                    }
                    i = i + 1;
                }
                let first = tokens.remove(0);
                let name = lowercase(first.as_str());
                proof {
                    assert(texts(tokens@) =~= Seq::new(
                        (items.len() - 1) as nat,
                        |k: int| items[k + 1]->BulkString_0,
                    ));
                }
                RespCommand::from_tokens(&name, &tokens)
            },
            _ => Err(message("An Array of BulkStrings is expected")),
        }
    }
}

impl Command {
    /// The command that the request in `input` asks for: the parser's message
    /// where the bytes hold no value, else what the value asks for.
    pub fn from_bytes(input: &[u8]) -> (r: Result<Command, String>)
        ensures
            parsed(input@) is None ==> r is Err,
            parsed(input@) matches Some(v) ==> match r {
                Ok(c) => interpret(v) == Ok::<CommandView, Seq<char>>(c@),
                Err(e) => interpret(v) == Err::<CommandView, Seq<char>>(e@),
            },
    {
        match RespObject::parse(input) {
            Ok(request) => Command::from(request),
            Err(e) => Err(e.message),
        }
    }

    /// The command that a request value asks for.
    pub fn from(input: RespObject) -> (r: Result<Command, String>)
        ensures
            match r {
                Ok(c) => interpret(input@) == Ok::<CommandView, Seq<char>>(c@),
                Err(e) => interpret(input@) == Err::<CommandView, Seq<char>>(e@),
            },
    {
        match RespCommand::from(input) {
            Ok(inner) => Ok(Command(inner)),
            Err(e) => Err(e),
        }
    }
}

/// An integer reply for a count or a number of seconds, held to what an `i64` holds.
pub open spec fn clamp_i64(n: int) -> i64 {
    if n > i64::MAX {
        i64::MAX
    } else {
        n as i64
    }
}

/// The integer that TTL answers with.
pub open spec fn ttl_reply(t: TimeToLive) -> i64 {
    match t {
        TimeToLive::KeyDoesNotExist => -2i64,
        TimeToLive::DoesNotExpire => -1i64,
        TimeToLive::ExpiresInSeconds(n) => clamp_i64(n as int),
    }
}

/// The reply for a read that saw `e`.
pub open spec fn read_reply(e: Option<StoredValue>) -> RespValue {
    match e {
        Some(e) => RespValue::BulkString(e.value),
        None => RespValue::NullBulkString,
    }
}

pub open spec fn option_reply(o: Option<String>) -> RespValue {
    match o {
        Some(s) => RespValue::BulkString(s@),
        None => RespValue::NullBulkString,
    }
}

/// The key space after the SETs in `sets`, applied from first to last at `now`.
pub open spec fn apply_sets(
    m: Map<Seq<char>, StoredValue>,
    sets: Seq<(Seq<char>, Seq<char>, Option<u64>)>,
    now: u128,
) -> Map<Seq<char>, StoredValue>
    decreases sets.len(),
{
    if sets.len() == 0 {
        m
    } else {
        apply_sets(m, sets.drop_last(), now).insert(
            sets.last().0,
            (StoredValue { value: sets.last().1, expires_at: expiry_for(now, sets.last().2) }),
        )
    }
}

/// The key space after reading each of `keys` in turn at `now`.
pub open spec fn reads_map(m: Map<Seq<char>, StoredValue>, keys: Seq<Seq<char>>, now: u128) -> Map<
    Seq<char>,
    StoredValue,
>
    decreases keys.len(),
{
    if keys.len() == 0 {
        m
    } else {
        after_read(reads_map(m, keys.drop_last(), now), keys.last(), now)
    }
}

/// The replies to reading each of `keys` in turn at `now`.
pub open spec fn reads_replies(m: Map<Seq<char>, StoredValue>, keys: Seq<Seq<char>>, now: u128) -> Seq<
    RespValue,
>
    decreases keys.len(),
{
    if keys.len() == 0 {
        Seq::empty()
    } else {
        reads_replies(m, keys.drop_last(), now).push(
            read_reply(live_entry(reads_map(m, keys.drop_last(), now), keys.last(), now)),
        )
    }
}

proof fn lemma_reads_replies_len(m: Map<Seq<char>, StoredValue>, keys: Seq<Seq<char>>, now: u128)
    ensures
        reads_replies(m, keys, now).len() == keys.len(),
    decreases keys.len(),
{
    if keys.len() > 0 {
        lemma_reads_replies_len(m, keys.drop_last(), now);
    }
}

/// The key space after removing each of `keys` in turn.
pub open spec fn removals_map(m: Map<Seq<char>, StoredValue>, keys: Seq<Seq<char>>) -> Map<
    Seq<char>,
    StoredValue,
>
    decreases keys.len(),
{
    if keys.len() == 0 {
        m
    } else {
        removals_map(m, keys.drop_last()).remove(keys.last())
    }
}

/// How many of the removals of `keys`, in turn, found an entry.
pub open spec fn removals_count(m: Map<Seq<char>, StoredValue>, keys: Seq<Seq<char>>) -> nat
    decreases keys.len(),
{
    if keys.len() == 0 {
        0
    } else {
        removals_count(m, keys.drop_last()) + if removals_map(m, keys.drop_last()).contains_key(
            keys.last(),
        ) {
            1nat
        } else {
            0nat
        }
    }
}

/// How many of `keys` stand in `m`, each occurrence counted.
pub open spec fn present_count(m: Map<Seq<char>, StoredValue>, keys: Seq<Seq<char>>) -> nat
    decreases keys.len(),
{
    if keys.len() == 0 {
        0
    } else {
        present_count(m, keys.drop_last()) + if m.contains_key(keys.last()) {
            1nat
        } else {
            0nat
        }
    }
}

/// The key space after running `c` on `m` at `now`, and the reply.
pub open spec fn executed(c: CommandView, m: Map<Seq<char>, StoredValue>, now: u128) -> (
    Map<Seq<char>, StoredValue>,
    RespValue,
) {
    match c {
        CommandView::Ping => (m, RespValue::SimpleString("PONG"@)),
        CommandView::Echo(msg) => (m, RespValue::SimpleString(msg)),
        CommandView::Get(k) => (after_read(m, k, now), read_reply(live_entry(m, k, now))),
        CommandView::SetKey(k, v, ex) => (
            m.insert(k, (StoredValue { value: v, expires_at: expiry_for(now, ex) })),
            RespValue::SimpleString("OK"@),
        ),
        CommandView::Ttl(k) => (after_read(m, k, now), RespValue::Integer(ttl_reply(ttl_of(m, k, now)))),
        CommandView::Mset(sets) => (apply_sets(m, sets, now), RespValue::SimpleString("OK"@)),
        CommandView::Mget(keys) => (reads_map(m, keys, now), RespValue::Array(reads_replies(m, keys, now))),
        CommandView::Del(keys) => (
            removals_map(m, keys),
            RespValue::Integer(clamp_i64(removals_count(m, keys) as int)),
        ),
        CommandView::Exists(keys) => (m, RespValue::Integer(clamp_i64(present_count(m, keys) as int))),
    }
}

fn count_reply(n: usize) -> (r: RespObject)
    ensures
        r@ == RespValue::Integer(clamp_i64(n as int)),
{
    if n as u64 > 9223372036854775807u64 {
        RespObject::Integer(9223372036854775807i64)
    } else {
        RespObject::Integer(n as i64)
    }
}

impl GetCommand {
    pub fn execute_on(&self, engine: &mut StorageEngine, now: u128) -> (r: Result<Option<String>, String>)
        requires
            old(engine).wf(),
        ensures
            final(engine).wf(),
            final(engine).view() == after_read(old(engine).view(), self.key@, now),
            crate::engine::get_result(r, live_entry(old(engine).view(), self.key@, now)),
    {
        engine.get_at(self.key.as_str(), now)
    }
}

impl SetCommand {
    pub fn execute_on(&self, engine: &mut StorageEngine, now: u128) -> (r: Result<(), String>)
        requires
            old(engine).wf(),
        ensures
            final(engine).wf(),
            final(engine).view() == old(engine).view().insert(
                self.key@,
                (StoredValue { value: self.value@, expires_at: expiry_for(now, self.expiry_seconds) }),
            ),
            r is Ok,
    {
        engine.set_at(self.key.clone(), self.value.clone(), self.expiry_seconds, now)
    }
}

impl MsetCommand {
    pub fn execute_on(&self, engine: &mut StorageEngine, now: u128) -> (r: Result<(), String>)
        requires
            old(engine).wf(),
        ensures
            final(engine).wf(),
            final(engine).view() == apply_sets(
                old(engine).view(),
                self.commands@.map_values(|s: SetCommand| set_view(s)),
                now,
            ),
            r is Ok,
    {
        let ghost sets = self.commands@.map_values(|s: SetCommand| set_view(s));
        let mut i: usize = 0;
        while i < self.commands.len()
            invariant
                i <= self.commands@.len(),
                sets == self.commands@.map_values(|s: SetCommand| set_view(s)),
                engine.wf(),
                engine.view() == apply_sets(old(engine).view(), sets.subrange(0, i as int), now),
            decreases self.commands@.len() - i,
        {
            let _ = self.commands[i].execute_on(engine, now);
            assert(sets.subrange(0, i + 1).drop_last() =~= sets.subrange(0, i as int));
            i = i + 1;
        }
        assert(sets.subrange(0, i as int) =~= sets);
        Ok(())
    }
}

impl MgetCommand {
    pub open spec fn keys_view(&self) -> Seq<Seq<char>> {
        self.commands@.map_values(|g: GetCommand| g.key@)
    }

    /// The text under each key in turn, or nothing where a key holds none.
    pub fn execute_on(&self, engine: &mut StorageEngine, now: u128) -> (r: Vec<Option<String>>)
        requires
            old(engine).wf(),
        ensures
            final(engine).wf(),
            final(engine).view() == reads_map(old(engine).view(), self.keys_view(), now),
            r@.len() == self.commands@.len(),
            forall|i: int|
                0 <= i < r@.len() ==> option_reply(#[trigger] r@[i]) == reads_replies(
                    old(engine).view(),
                    self.keys_view(),
                    now,
                )[i],
    {
        let ghost keys = self.keys_view();
        let ghost m0 = engine.view();
        let mut out: Vec<Option<String>> = Vec::new();
        let mut i: usize = 0;
        while i < self.commands.len()
            invariant
                i <= self.commands@.len(),
                keys == self.keys_view(),
                keys.len() == self.commands@.len(),
                engine.wf(),
                engine.view() == reads_map(m0, keys.subrange(0, i as int), now),
                out@.len() == i,
                forall|j: int|
                    0 <= j < i ==> option_reply(#[trigger] out@[j]) == reads_replies(
                        m0,
                        keys.subrange(0, i as int),
                        now,
                    )[j],
            decreases self.commands@.len() - i,
        {
            let ghost before = engine.view();
            let r = self.commands[i].execute_on(engine, now);
            let o = match r {
                Ok(v) => v,
                Err(_) => None,
            };
            let ghost pre = keys.subrange(0, i as int);
            let ghost post = keys.subrange(0, i + 1);
            assert(post.drop_last() =~= pre);
            assert(post.last() == self.commands@[i as int].key@);
            proof {
                lemma_reads_replies_len(m0, pre, now);
            }
            assert(reads_replies(m0, post, now) == reads_replies(m0, pre, now).push(
                read_reply(live_entry(before, post.last(), now)),
            ));
            assert(option_reply(o) == read_reply(live_entry(before, post.last(), now)));
            let ghost prev = out@;
            out.push(o);
            i = i + 1;
            assert forall|j: int| 0 <= j < i implies option_reply(#[trigger] out@[j]) == reads_replies(
                m0,
                post,
                now,
            )[j] by {
                if j < i - 1 {
                    assert(out@[j] == prev[j]);
                }
            }
        }
        assert(keys.subrange(0, i as int) =~= keys);
        out
    }
}

impl DelCommand {
    /// Removes each key in turn; gives how many removals found an entry.
    pub fn execute_on(&self, engine: &mut StorageEngine) -> (r: usize)
        requires
            old(engine).wf(),
        ensures
            final(engine).wf(),
            final(engine).view() == removals_map(old(engine).view(), texts(self.keys@)),
            r == removals_count(old(engine).view(), texts(self.keys@)),
    {
        let ghost keys = texts(self.keys@);
        let ghost m0 = engine.view();
        let mut count: usize = 0;
        let mut i: usize = 0;
        while i < self.keys.len()
            invariant
                i <= self.keys@.len(),
                keys == texts(self.keys@),
                engine.wf(),
                engine.view() == removals_map(m0, keys.subrange(0, i as int)),
                count == removals_count(m0, keys.subrange(0, i as int)),
                count <= i,
            decreases self.keys@.len() - i,
        {
            let ghost post = keys.subrange(0, i + 1);
            assert(post.drop_last() =~= keys.subrange(0, i as int));
            if engine.remove(self.keys[i].as_str()) {
                count = count + 1;
            }
            i = i + 1;
        }
        assert(keys.subrange(0, i as int) =~= keys);
        count
    }
}

impl ExistsCommand {
    /// How many of the keys stand in the key space, each occurrence counted.
    pub fn execute_on(&self, engine: &StorageEngine) -> (r: usize)
        requires
            engine.wf(),
        ensures
            r == present_count(engine.view(), texts(self.keys@)),
    {
        let ghost keys = texts(self.keys@);
        let mut count: usize = 0;
        let mut i: usize = 0;
        while i < self.keys.len()
            invariant
                i <= self.keys@.len(),
                keys == texts(self.keys@),
                engine.wf(),
                count == present_count(engine.view(), keys.subrange(0, i as int)),
                count <= i,
            decreases self.keys@.len() - i,
        {
            let ghost post = keys.subrange(0, i + 1);
            assert(post.drop_last() =~= keys.subrange(0, i as int));
            if engine.key_exists(self.keys[i].as_str()) {
                count = count + 1;
            }
            i = i + 1;
        }
        assert(keys.subrange(0, i as int) =~= keys);
        count
    }
}

impl RespCommand {
    /// Runs this command on `engine` at `now` and gives the reply.
    pub fn execute_at(&self, engine: &mut StorageEngine, now: u128) -> (r: RespObject)
        requires
            old(engine).wf(),
        ensures
            final(engine).wf(),
            (final(engine).view(), r@) == executed(self@, old(engine).view(), now),
    {
        match self {
            RespCommand::Ping => RespObject::SimpleString(message("PONG")),
            RespCommand::Echo { message } => RespObject::SimpleString(message.clone()),
            RespCommand::Get(cmd) => match cmd.execute_on(engine, now) {
                Ok(Some(value)) => RespObject::BulkString(value),
                Ok(None) => RespObject::NullBulkString,
                Err(e) => RespObject::Error(e),
            },
            RespCommand::SetKey(cmd) => {
                let _ = cmd.execute_on(engine, now);
                RespObject::SimpleString(message("OK"))
            },
            RespCommand::Ttl { key } => match engine.time_to_live_at(key.as_str(), now) {
                TimeToLive::KeyDoesNotExist => RespObject::Integer(-2),
                TimeToLive::DoesNotExpire => RespObject::Integer(-1),
                TimeToLive::ExpiresInSeconds(seconds) => {
                    if seconds > 9223372036854775807u64 {
                        RespObject::Integer(9223372036854775807i64)
                    } else {
                        RespObject::Integer(seconds as i64)
                    }
                },
            },
            RespCommand::Mset(cmd) => {
                let _ = cmd.execute_on(engine, now);
                RespObject::SimpleString(message("OK"))
            },
            RespCommand::Mget(cmd) => {
                let values = cmd.execute_on(engine, now);
                let ghost replies = reads_replies(old(engine).view(), cmd.keys_view(), now);
                proof {
                    lemma_reads_replies_len(old(engine).view(), cmd.keys_view(), now);
                }
                let mut items: Vec<RespObject> = Vec::new();
                let mut i: usize = 0;
                while i < values.len()
                    invariant
                        i <= values@.len(),
                        replies.len() == values@.len(),
                        forall|j: int| 0 <= j < values@.len() ==> option_reply(#[trigger] values@[j]) == replies[j],
                        items@.len() == i,
                        forall|j: int| 0 <= j < i ==> (#[trigger] items@[j])@ == replies[j],
                    decreases values@.len() - i,
                {
                    let item = match &values[i] {
                        Some(v) => RespObject::BulkString(v.clone()),
                        None => RespObject::NullBulkString,
                    };
                    items.push(item);
                    i = i + 1;
                }
                let r = RespObject::Array(items);
                assert(r@->Array_0 =~= replies);
                r
            },
            RespCommand::Del(cmd) => count_reply(cmd.execute_on(engine)),
            RespCommand::Exists(cmd) => count_reply(cmd.execute_on(engine)),
        }
    }

    /// Runs this command on `engine` now and gives the reply.
    pub fn execute_on(&self, engine: &mut StorageEngine) -> (r: RespObject)
        requires
            old(engine).wf(),
        ensures
            final(engine).wf(),
            exists|now: u128| #[trigger] executed(self@, old(engine).view(), now) == (final(engine).view(), r@),
    {
        let now = clock_now();
        self.execute_at(engine, now)
    }
}

impl Command {
    /// Runs this command on `engine` at `now` and gives the reply.
    pub fn execute_at(&self, engine: &mut StorageEngine, now: u128) -> (r: RespObject)
        requires
            old(engine).wf(),
        ensures
            final(engine).wf(),
            (final(engine).view(), r@) == executed(self@, old(engine).view(), now),
    {
        self.0.execute_at(engine, now)
    }

    /// Runs this command on `engine` now and gives the reply.
    pub fn execute_on(&self, engine: &mut StorageEngine) -> (r: RespObject)
        requires
            old(engine).wf(),
        ensures
            final(engine).wf(),
            exists|now: u128| #[trigger] executed(self@, old(engine).view(), now) == (final(engine).view(), r@),
    {
        let now = clock_now();
        self.execute_at(engine, now)
    }
}

} // verus!

verus! {

/// A GET of a key that holds no entry answers with the null bulk string, and
/// leaves the key space as it was.
pub proof fn lemma_get_unset(m: Map<Seq<char>, StoredValue>, k: Seq<char>, now: u128)
    requires
        !m.contains_key(k),
    ensures
        executed(CommandView::Get(k), m, now) == (m, RespValue::NullBulkString),
{
}

/// A GET after a SET without expiry answers with the value set, at any later time.
pub proof fn lemma_set_then_get(
    m: Map<Seq<char>, StoredValue>,
    k: Seq<char>,
    v: Seq<char>,
    set_time: u128,
    get_time: u128,
)
    ensures
        executed(
            CommandView::Get(k),
            executed(CommandView::SetKey(k, v, None), m, set_time).0,
            get_time,
        ).1 == RespValue::BulkString(v),
{
    let m2 = executed(CommandView::SetKey(k, v, None), m, set_time).0;
    assert(m2.contains_key(k) && m2[k].value == v && m2[k].expires_at is None);
}

/// Lazy expiry: after `SET k v EX s` at `set_time`, a GET at a time up to `s`
/// seconds later answers with `v` and evicts nothing; a GET at any later time
/// answers with the null bulk string and evicts the entry.
pub proof fn lemma_set_with_expiry_then_get(
    m: Map<Seq<char>, StoredValue>,
    k: Seq<char>,
    v: Seq<char>,
    s: u64,
    set_time: u128,
    get_time: u128,
)
    requires
        set_time <= get_time,
        set_time + s * NANOS_PER_SEC <= u128::MAX,
    ensures
        ({
            let m2 = executed(CommandView::SetKey(k, v, Some(s)), m, set_time).0;
            let (m3, reply) = executed(CommandView::Get(k), m2, get_time);
            if get_time <= set_time + s * NANOS_PER_SEC {
                reply == RespValue::BulkString(v) && m3 == m2
            } else {
                reply == RespValue::NullBulkString && m3 == m2.remove(k)
            }
        }),
{
    let m2 = executed(CommandView::SetKey(k, v, Some(s)), m, set_time).0;
    assert(m2.contains_key(k) && m2[k].value == v);
    assert(m2[k].expires_at == Some((set_time + s * NANOS_PER_SEC) as u128));
}

/// The key space after an MSET holds, under a key, the value of the last pair
/// naming it: a later pair overwrites an earlier one.
pub proof fn lemma_mset_last_write_wins(
    m: Map<Seq<char>, StoredValue>,
    sets: Seq<(Seq<char>, Seq<char>, Option<u64>)>,
    now: u128,
    i: int,
)
    requires
        0 <= i < sets.len(),
        forall|j: int| i < j < sets.len() ==> (#[trigger] sets[j]).0 != sets[i].0,
    ensures
        apply_sets(m, sets, now).contains_key(sets[i].0),
        apply_sets(m, sets, now)[sets[i].0] == (StoredValue {
            value: sets[i].1,
            expires_at: expiry_for(now, sets[i].2),
        }),
    decreases sets.len(),
{
    if i < sets.len() - 1 {
        let init = sets.drop_last();
        assert forall|j: int| i < j < init.len() implies (#[trigger] init[j]).0 != init[i].0 by {
            assert(init[j] == sets[j]);
        }
        assert(sets.last() == sets[sets.len() - 1]);
        lemma_mset_last_write_wins(m, init, now, i);
    }
}

/// An MSET that names one key twice leaves the second value under it.
pub proof fn lemma_mset_repeated_key(
    m: Map<Seq<char>, StoredValue>,
    k: Seq<char>,
    v1: Seq<char>,
    v2: Seq<char>,
    now: u128,
)
    ensures
        ({
            let c = command_of("mset"@, seq![k, v1, k, v2]);
            &&& c is Ok
            &&& executed(CommandView::Get(k), executed(c->Ok_0, m, now).0, now).1
                == RespValue::BulkString(v2)
        }),
{
    let c = command_of("mset"@, seq![k, v1, k, v2]);
    let args = seq![k, v1, k, v2];
    let sets = Seq::new(2, |i: int| (args[2 * i], args[2 * i + 1], None::<u64>));
    lemma_multi_key_names_distinct();
    assert(c == Ok::<CommandView, Seq<char>>(CommandView::Mset(sets)));
    lemma_mset_last_write_wins(m, sets, now, 1);
}

/// A name that is no command is answered with an error that quotes it.
pub proof fn lemma_unknown_command(name: Seq<char>, args: Seq<Seq<char>>)
    requires
        name != "ping"@,
        name != "echo"@,
        name != "get"@,
        name != "set"@,
        name != "ttl"@,
        name != "mset"@,
        name != "mget"@,
        name != "del"@,
        name != "exists"@,
    ensures
        command_of(name, args) == Err::<CommandView, Seq<char>>("unknown command '"@ + name + "'"@),
{
}

proof fn lemma_multi_key_names_distinct()
    ensures
        "mset"@ != "ping"@ && "mset"@ != "echo"@ && "mset"@ != "get"@ && "mset"@ != "set"@
            && "mset"@ != "ttl"@,
        "mget"@ != "ping"@ && "mget"@ != "echo"@ && "mget"@ != "get"@ && "mget"@ != "set"@
            && "mget"@ != "ttl"@ && "mget"@ != "mset"@,
        "del"@ != "ping"@ && "del"@ != "echo"@ && "del"@ != "get"@ && "del"@ != "set"@
            && "del"@ != "ttl"@ && "del"@ != "mset"@ && "del"@ != "mget"@,
        "exists"@ != "ping"@ && "exists"@ != "echo"@ && "exists"@ != "get"@ && "exists"@
            != "set"@ && "exists"@ != "ttl"@ && "exists"@ != "mset"@ && "exists"@ != "mget"@
            && "exists"@ != "del"@,
{
    reveal_strlit("mset");
    reveal_strlit("mget");
    reveal_strlit("del");
    reveal_strlit("exists");
    reveal_strlit("ping");
    reveal_strlit("echo");
    reveal_strlit("get");
    reveal_strlit("set");
    reveal_strlit("ttl");
    assert("mset"@[0] != "ping"@[0] && "mset"@[0] != "echo"@[0]);
    assert("mget"@[0] != "ping"@[0] && "mget"@[0] != "echo"@[0] && "mget"@[1] != "mset"@[1]);
    assert("del"@[0] != "get"@[0] && "del"@[0] != "set"@[0] && "del"@[0] != "ttl"@[0]);
    assert("exists"@.len() == 6 && "ping"@.len() == 4 && "echo"@.len() == 4 && "get"@.len() == 3
        && "set"@.len() == 3 && "ttl"@.len() == 3 && "mset"@.len() == 4 && "mget"@.len() == 4
        && "del"@.len() == 3);
}

/// MSET, MGET, DEL and EXISTS with no argument raise an arity error.
pub proof fn lemma_multi_key_commands_need_arguments()
    ensures
        command_of("mset"@, Seq::empty()) == Err::<CommandView, Seq<char>>(
            "Wrong number of arguments for 'mset' command"@,
        ),
        command_of("mget"@, Seq::empty()) == Err::<CommandView, Seq<char>>(
            "Wrong number of arguments for 'mget' command"@,
        ),
        command_of("del"@, Seq::empty()) == Err::<CommandView, Seq<char>>(
            "Wrong number of arguments for 'del' command"@,
        ),
        command_of("exists"@, Seq::empty()) == Err::<CommandView, Seq<char>>(
            "Wrong number of arguments for 'exists' command"@,
        ),
{
    lemma_multi_key_names_distinct();
}

} // verus!

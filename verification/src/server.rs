//! The command dispatcher and the shared store.
//!
//! The store is reached only through the two dispatch entry points. Which
//! one a caller may use is fixed by the command's precomputed mutability
//! flag: `handle_command` takes the store by shared reference and serves
//! every read-only keyword, `handle_command_mut` takes it exclusively and
//! serves the mutating ones. Handing a command to the entry point of the
//! wrong mutability is a caller bug, excluded by precondition, never
//! reachable from client input once the caller branches on the flag.
use vstd::prelude::*;

use vstd::hash_map::StringHashMap;

use crate::command::Command;
use crate::command::CommandModel;
use crate::command::Keyword;
use crate::digits::dec_digits;
use crate::resp::Resp;
use crate::resp::RespModel;
use crate::resp::crlf_chars;
use crate::resp::declared_len;
use crate::resp::reply_bytes;
use crate::resp::reply_chars;
use vstd::utf8::is_ascii_chars;
use vstd::utf8::is_ascii_chars_encode_utf8;

verus! {

/// The arguments of an `echo`, joined by a single space.
pub open spec fn join_space(args: Seq<Seq<char>>) -> Seq<char> {
    if args.len() == 0 {
        Seq::empty()
    } else {
        args[0] + join_rest(args.skip(1))
    }
}

/// Every argument prefixed by one space, concatenated.
pub open spec fn join_rest(args: Seq<Seq<char>>) -> Seq<char>
    decreases args.len(),
{
    if args.len() == 0 {
        Seq::empty()
    } else {
        seq![' '] + args[0] + join_rest(args.skip(1))
    }
}

/// What a read-only command replies, given the store's contents:
/// `ping` a `PONG` status, `echo` a bulk string of its arguments joined by
/// a space, `get` the stored value as a bulk string or nil when the key is
/// absent, and an unrecognized keyword an error naming it unknown. Wrong
/// arity for `get` is an error reply, never a failure.
pub open spec fn dispatch_read_spec(
    store: Map<Seq<char>, Seq<char>>,
    c: CommandModel,
) -> RespModel
    recommends
        !crate::command::is_mutable_spec(c.keyword),
{
    match c.keyword {
        Keyword::Ping => RespModel::SimpleString("PONG"@),
        Keyword::Echo => RespModel::BulkString(join_space(c.args)),
        Keyword::Get => if c.args.len() == 1 {
            if store.contains_key(c.args[0]) {
                RespModel::BulkString(store[c.args[0]])
            } else {
                RespModel::Nil
            }
        } else if c.args.len() == 0 {
            RespModel::Error("Missing argument to command GET"@)
        } else {
            RespModel::Error("Too many arguments to command GET"@)
        },
        Keyword::Unknown => RespModel::Error("Unknown command"@),
        Keyword::SetCmd => arbitrary(),
    }
}

/// What a mutating command replies and how it changes the store: `set`
/// with exactly a key and a value stores the pair and answers `OK`; any
/// other arity is an error reply and leaves the store unchanged.
pub open spec fn dispatch_write_spec(
    store: Map<Seq<char>, Seq<char>>,
    c: CommandModel,
) -> (RespModel, Map<Seq<char>, Seq<char>>)
    recommends
        crate::command::is_mutable_spec(c.keyword),
{
    match c.keyword {
        Keyword::SetCmd => if c.args.len() == 2 {
            (RespModel::SimpleString("OK"@), store.insert(c.args[0], c.args[1]))
        } else if c.args.len() < 2 {
            (RespModel::Error("Not enough arguments to SET command"@), store)
        } else {
            (RespModel::Error("Too many arguments to SET command"@), store)
        },
        _ => arbitrary(),
    }
}

/// Joins words by a single space.
fn join_spaced(args: &Vec<String>) -> (r: String)
    ensures
        r@ == join_space(args.deep_view()),
{
    let ghost whole = args.deep_view();
    if args.len() == 0 {
        let r = String::new();
        return r;
    }
    let mut r = args[0].clone();
    let mut i: usize = 1;
    proof {
        assert(whole.skip(0) =~= whole);
        assert(r@ == whole[0]);
    }
    while i < args.len()
        invariant
            1 <= i <= args.len(),
            whole == args.deep_view(),
            whole.len() == args.len(),
            join_space(whole) == r@ + join_rest(whole.skip(i as int)),
        decreases args.len() - i,
    {
        let ghost before = r@;
        let ghost rem = whole.skip(i as int);
        r.append(" ");
        r.append(args[i].as_str());
        proof {
            reveal_strlit(" ");
            assert(rem[0] == whole[i as int]);
            assert(whole[i as int] == args[i as int]@);
            assert(rem.skip(1) =~= whole.skip(i + 1));
            assert(r@ =~= before + (seq![' '] + whole[i as int]));
            assert(r@ + join_rest(whole.skip(i + 1)) =~= before + join_rest(rem));
        }
        i = i + 1;
    }
    proof {
        assert(whole.skip(whole.len() as int) =~= Seq::<Seq<char>>::empty());
        assert(r@ + join_rest(Seq::empty()) =~= r@);
    }
    r
}

/// The shared key-value store, reached only through the dispatcher's read
/// and write paths.
pub struct Server {
    memory: StringHashMap<String>,
}

impl Server {
    /// The store's contents as a map from key text to value text.
    pub closed spec fn store(&self) -> Map<Seq<char>, Seq<char>> {
        Map::new(
            |k: Seq<char>| self.memory@.contains_key(k),
            |k: Seq<char>| self.memory@[k]@,
        )
    }

    /// An empty store.
    pub fn new() -> (s: Self)
        ensures
            s.store() == Map::<Seq<char>, Seq<char>>::empty(),
    {
        let s = Server { memory: StringHashMap::new() };
        proof {
            assert(s.store() =~= Map::<Seq<char>, Seq<char>>::empty());
        }
        s
    }

    /// Reads a key from the store.
    fn get(&self, key: &str) -> (r: Option<&String>)
        ensures
            match r {
                Some(v) => self.store().contains_key(key@) && v@ == self.store()[key@],
                None => !self.store().contains_key(key@),
            },
    {
        self.memory.get(key)
    }

    /// Inserts or overwrites a key in the store. The whole value is
    /// replaced at once: the store never holds a splice of two writes.
    fn set(&mut self, key: &str, val: String)
        ensures
            final(self).store() == old(self).store().insert(key@, val@),
    {
        let owned = key.to_owned();
        self.memory.insert(owned, val);
        proof {
            assert(final(self).store() =~= old(self).store().insert(key@, val@));
        }
    }

    /// Serves one mutating command under exclusive access, applying its
    /// side effect to the store and producing its reply. Must only be
    /// given commands whose mutability flag is set.
    pub fn handle_command_mut(&mut self, command: Command) -> (r: Resp)
        requires
            command@.wf(),
            command@.mutable,
        ensures
            r@ == dispatch_write_spec(old(self).store(), command@).0,
            final(self).store() == dispatch_write_spec(old(self).store(), command@).1,
    {
        match command.keyword {
            Keyword::SetCmd => {
                if command.args.len() == 2 {
                    proof {
                        assert(command@.args[0] == command.args[0 as int]@);
                        assert(command@.args[1] == command.args[1 as int]@);
                    }
                    let val = command.args[1].clone();
                    self.set(command.args[0].as_str(), val);
                    Resp::SimpleString(String::from_str("OK"))
                } else if command.args.len() < 2 {
                    Resp::Error(String::from_str("Not enough arguments to SET command"))
                } else {
                    Resp::Error(String::from_str("Too many arguments to SET command"))
                }
            },
            _ => vstd::pervasive::unreached(),
        }
    }

    /// Serves one read-only command under shared access, producing its
    /// reply and leaving the store untouched. Must only be given commands
    /// whose mutability flag is clear.
    pub fn handle_command(&self, command: Command) -> (r: Resp)
        requires
            command@.wf(),
            !command@.mutable,
        ensures
            r@ == dispatch_read_spec(self.store(), command@),
    {
        match command.keyword {
            Keyword::Ping => Resp::SimpleString(String::from_str("PONG")),
            Keyword::Echo => Resp::BulkString(join_spaced(&command.args)),
            Keyword::Get => {
                if command.args.len() == 1 {
                    match self.get(command.args[0].as_str()) {
                        Some(val) => Resp::BulkString(val.clone()),
                        None => Resp::Nil,
                    }
                } else if command.args.len() == 0 {
                    Resp::Error(String::from_str("Missing argument to command GET"))
                } else {
                    Resp::Error(String::from_str("Too many arguments to command GET"))
                }
            },
            Keyword::Unknown => Resp::Error(String::from_str("Unknown command")),
            Keyword::SetCmd => vstd::pervasive::unreached(),
        }
    }
}

/// The shared store under its access discipline: any number of concurrent
/// readers, or one writer to the exclusion of everything else. Which path
/// a command takes is decided here, strictly from its precomputed
/// mutability flag, so the read path can never be handed a mutating
/// command nor the write path a read-only one.
pub struct SharedServer {
    lock: vstd::rwlock::RwLock<Server, spec_fn(Server) -> bool>,
}

impl SharedServer {
    /// The lock admits every store value: it guards access, not contents.
    #[verifier::type_invariant]
    spec fn lock_admits_all(self) -> bool {
        forall|v: Server| self.lock.inv(v)
    }

    /// A shared handle over an empty store.
    pub fn new() -> (s: Self) {
        let server = Server::new();
        let lock = vstd::rwlock::RwLock::new(server, Ghost(|v: Server| true));
        proof {
            assert(forall|v: Server| lock.inv(v));
        }
        SharedServer { lock }
    }

    /// Serves one command, taking the store exclusively when the command
    /// mutates and sharing it when it only reads. The reply is always
    /// computed against one complete store value — the one the lock hands
    /// this call — never against a half-written intermediate.
    pub fn dispatch(&self, command: Command) -> (r: Resp)
        requires
            command@.wf(),
        ensures
            command@.mutable ==> exists|st: Map<Seq<char>, Seq<char>>| r@
                == #[trigger] dispatch_write_spec(st, command@).0,
            !command@.mutable ==> exists|st: Map<Seq<char>, Seq<char>>| r@
                == #[trigger] dispatch_read_spec(st, command@),
    {
        proof {
            use_type_invariant(self);
        }
        if command.keyword.is_mutable() {
            let (mut server, handle) = self.lock.acquire_write();
            let ghost snapshot = server.store();
            let r = server.handle_command_mut(command);
            handle.release_write(server);
            proof {
                assert(r@ == dispatch_write_spec(snapshot, command@).0);
            }
            r
        } else {
            let handle = self.lock.acquire_read();
            let server = handle.borrow();
            let ghost snapshot = server.store();
            let r = server.handle_command(command);
            handle.release_read();
            proof {
                assert(r@ == dispatch_read_spec(snapshot, command@));
            }
            r
        }
    }
}

/// A `set` carrying exactly a key and a value always answers the status
/// `OK`, whose wire form is the literal bytes `+OK\r\n`, whatever the
/// store held.
pub proof fn lemma_set_replies_ok(store: Map<Seq<char>, Seq<char>>, k: Seq<char>, v: Seq<char>)
    ensures
        ({
            let c = CommandModel { keyword: Keyword::SetCmd, args: seq![k, v], mutable: true };
            &&& dispatch_write_spec(store, c).0 == RespModel::SimpleString("OK"@)
            &&& reply_bytes(dispatch_write_spec(store, c).0) == seq![43u8, 79u8, 75u8, 13u8, 10u8]
        }),
{
    let c = CommandModel { keyword: Keyword::SetCmd, args: seq![k, v], mutable: true };
    assert(c.args.len() == 2);
    reveal_strlit("OK");
    let chars = reply_chars(RespModel::SimpleString("OK"@));
    assert(chars =~= seq!['+', 'O', 'K', '\r', '\n']);
    assert(is_ascii_chars(chars)) by {
        assert forall|i: int| 0 <= i < chars.len() implies '\0' <= #[trigger] chars[i]
            <= '\u{7f}' by {
            if i == 0 {
                assert(chars[i] == '+');
            } else if i == 1 {
                assert(chars[i] == 'O');
            } else if i == 2 {
                assert(chars[i] == 'K');
            } else if i == 3 {
                assert(chars[i] == '\r');
            } else {
                assert(chars[i] == '\n');
            }
        }
    }
    is_ascii_chars_encode_utf8(chars);
    assert(reply_bytes(RespModel::SimpleString("OK"@)) =~= seq![43u8, 79u8, 75u8, 13u8, 10u8]);
}

/// A `get` of a key the store does not hold answers nil, whose wire form
/// is the literal bytes `$-1\r\n`.
pub proof fn lemma_get_absent(store: Map<Seq<char>, Seq<char>>, k: Seq<char>)
    requires
        !store.contains_key(k),
    ensures
        ({
            let c = CommandModel { keyword: Keyword::Get, args: seq![k], mutable: false };
            &&& dispatch_read_spec(store, c) == RespModel::Nil
            &&& reply_bytes(RespModel::Nil) == seq![36u8, 45u8, 49u8, 13u8, 10u8]
        }),
{
    let chars = reply_chars(RespModel::Nil);
    assert(is_ascii_chars(chars)) by {
        assert forall|i: int| 0 <= i < chars.len() implies '\0' <= #[trigger] chars[i]
            <= '\u{7f}' by {
            if i == 0 {
                assert(chars[i] == '$');
            } else if i == 1 {
                assert(chars[i] == '-');
            } else if i == 2 {
                assert(chars[i] == '1');
            } else if i == 3 {
                assert(chars[i] == '\r');
            } else {
                assert(chars[i] == '\n');
            }
        }
    }
    is_ascii_chars_encode_utf8(chars);
    assert(reply_bytes(RespModel::Nil) =~= seq![36u8, 45u8, 49u8, 13u8, 10u8]);
}

/// Read-after-write consistency: a `set` of key and value followed by a
/// `get` of the same key answers a bulk string of exactly that value,
/// whose wire form is `$<byte-length>\r\n<value>\r\n`.
pub proof fn lemma_read_after_write(store: Map<Seq<char>, Seq<char>>, k: Seq<char>, v: Seq<char>)
    ensures
        ({
            let setc = CommandModel { keyword: Keyword::SetCmd, args: seq![k, v], mutable: true };
            let getc = CommandModel { keyword: Keyword::Get, args: seq![k], mutable: false };
            let written = dispatch_write_spec(store, setc).1;
            &&& written == store.insert(k, v)
            &&& dispatch_read_spec(written, getc) == RespModel::BulkString(v)
            &&& reply_chars(RespModel::BulkString(v)) == seq!['$'] + dec_digits(declared_len(v))
                + crlf_chars() + v + crlf_chars()
            &&& reply_bytes(RespModel::BulkString(v)) == vstd::utf8::encode_utf8(
                seq!['$'] + dec_digits(declared_len(v)),
            ) + seq![13u8, 10u8] + vstd::utf8::encode_utf8(v) + seq![13u8, 10u8]
        }),
{
    let setc = CommandModel { keyword: Keyword::SetCmd, args: seq![k, v], mutable: true };
    assert(setc.args.len() == 2);
    assert(store.insert(k, v).contains_key(k));
    assert(store.insert(k, v)[k] == v);
    let head = seq!['$'] + dec_digits(declared_len(v));
    let chars = reply_chars(RespModel::BulkString(v));
    assert(chars =~= head + crlf_chars() + v + crlf_chars());
    assert(is_ascii_chars(crlf_chars())) by {
        assert(crlf_chars()[0] == '\r');
        assert(crlf_chars()[1] == '\n');
    }
    is_ascii_chars_encode_utf8(crlf_chars());
    let crlf_bytes = vstd::utf8::encode_utf8(crlf_chars());
    assert(crlf_bytes =~= seq![13u8, 10u8]);
    crate::resp::lemma_encode_utf8_concat(head + crlf_chars() + v, crlf_chars());
    crate::resp::lemma_encode_utf8_concat(head + crlf_chars(), v);
    crate::resp::lemma_encode_utf8_concat(head, crlf_chars());
    assert(reply_bytes(RespModel::BulkString(v)) =~= vstd::utf8::encode_utf8(head) + seq![
        13u8,
        10u8,
    ] + vstd::utf8::encode_utf8(v) + seq![13u8, 10u8]);
}

} // verus!

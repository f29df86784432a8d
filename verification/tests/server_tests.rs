use resp_kv::command::Command;
use resp_kv::command::Keyword;
use resp_kv::command::parse_message;
use resp_kv::resp::Resp;
use resp_kv::server::Server;
use resp_kv::server::SharedServer;

fn cmd(keyword: Keyword, args: &[&str]) -> Command {
    Command {
        keyword,
        args: args.iter().map(|s| s.to_string()).collect(),
        mutable: keyword.is_mutable(),
    }
}

#[test]
fn ping_replies_pong() {
    let server = Server::new();
    let reply = server.handle_command(cmd(Keyword::Ping, &[]));
    assert_eq!(reply.as_bytes(), b"+PONG\r\n");
}

#[test]
fn set_replies_ok() {
    let mut server = Server::new();
    let reply = server.handle_command_mut(cmd(Keyword::SetCmd, &["k", "v"]));
    assert_eq!(reply.as_bytes(), b"+OK\r\n");
}

#[test]
fn get_on_a_key_never_set_is_nil() {
    let server = Server::new();
    let reply = server.handle_command(cmd(Keyword::Get, &["missing"]));
    assert_eq!(reply.as_bytes(), b"$-1\r\n");
}

#[test]
fn set_then_get_returns_the_value() {
    let mut server = Server::new();
    server.handle_command_mut(cmd(Keyword::SetCmd, &["key", "hello"]));
    let reply = server.handle_command(cmd(Keyword::Get, &["key"]));
    assert_eq!(reply.as_bytes(), b"$5\r\nhello\r\n");
}

#[test]
fn set_overwrites_the_whole_value() {
    let mut server = Server::new();
    server.handle_command_mut(cmd(Keyword::SetCmd, &["key", "first"]));
    server.handle_command_mut(cmd(Keyword::SetCmd, &["key", "second value"]));
    let reply = server.handle_command(cmd(Keyword::Get, &["key"]));
    assert_eq!(reply.as_bytes(), b"$12\r\nsecond value\r\n");
}

#[test]
fn echo_joins_arguments_with_one_space() {
    let server = Server::new();
    let reply = server.handle_command(cmd(Keyword::Echo, &["foo", "bar"]));
    assert_eq!(reply.as_bytes(), b"$7\r\nfoo bar\r\n");
}

#[test]
fn echo_without_arguments_is_an_empty_bulk_string() {
    let server = Server::new();
    let reply = server.handle_command(cmd(Keyword::Echo, &[]));
    assert_eq!(reply.as_bytes(), b"$0\r\n\r\n");
}

#[test]
fn unknown_command_is_an_error_reply_and_processing_continues() {
    let server = Server::new();
    let reply = server.handle_command(cmd(Keyword::Unknown, &["whatever"]));
    let bytes = reply.as_bytes();
    assert_eq!(bytes, b"-Unknown command\r\n");
    assert!(String::from_utf8(bytes).unwrap().contains("Unknown"));
    // The connection is not poisoned: the next command still answers.
    let next = server.handle_command(cmd(Keyword::Ping, &[]));
    assert_eq!(next.as_bytes(), b"+PONG\r\n");
}

#[test]
fn get_arity_violations_are_error_replies() {
    let server = Server::new();
    let none = server.handle_command(cmd(Keyword::Get, &[]));
    assert_eq!(none.as_bytes(), b"-Missing argument to command GET\r\n");
    let many = server.handle_command(cmd(Keyword::Get, &["a", "b"]));
    assert_eq!(many.as_bytes(), b"-Too many arguments to command GET\r\n");
}

#[test]
fn set_arity_violations_are_error_replies_and_leave_the_store_alone() {
    let mut server = Server::new();
    let few = server.handle_command_mut(cmd(Keyword::SetCmd, &["k"]));
    assert_eq!(few.as_bytes(), b"-Not enough arguments to SET command\r\n");
    let many = server.handle_command_mut(cmd(Keyword::SetCmd, &["k", "v", "x"]));
    assert_eq!(many.as_bytes(), b"-Too many arguments to SET command\r\n");
    let probe = server.handle_command(cmd(Keyword::Get, &["k"]));
    assert_eq!(probe.as_bytes(), b"$-1\r\n");
}

#[test]
fn integer_replies_encode_exactly() {
    assert_eq!(Resp::Integer(42).as_bytes(), b":42\r\n");
    assert_eq!(Resp::Integer(0).as_bytes(), b":0\r\n");
    assert_eq!(Resp::Integer(-7).as_bytes(), b":-7\r\n");
    assert_eq!(
        Resp::Integer(i64::MIN).as_bytes(),
        b":-9223372036854775808\r\n"
    );
}

#[test]
fn encoder_is_deterministic() {
    let a = Resp::BulkString("payload".to_string()).as_bytes();
    let b = Resp::BulkString("payload".to_string()).as_bytes();
    assert_eq!(a, b);
    assert_eq!(a, b"$7\r\npayload\r\n");
    assert_eq!(
        Resp::Error("boom".to_string()).as_bytes(),
        b"-boom\r\n"
    );
    assert_eq!(Resp::Nil.as_bytes(), b"$-1\r\n");
}

#[test]
fn shared_server_dispatches_by_mutability() {
    let shared = SharedServer::new();
    assert_eq!(shared.dispatch(cmd(Keyword::Ping, &[])).as_bytes(), b"+PONG\r\n");
    assert_eq!(
        shared.dispatch(cmd(Keyword::SetCmd, &["k", "v"])).as_bytes(),
        b"+OK\r\n"
    );
    assert_eq!(
        shared.dispatch(cmd(Keyword::Get, &["k"])).as_bytes(),
        b"$1\r\nv\r\n"
    );
    assert_eq!(
        shared.dispatch(cmd(Keyword::Unknown, &[])).as_bytes(),
        b"-Unknown command\r\n"
    );
}

#[test]
fn pipelined_batch_dispatches_in_order() {
    let input = "*3\r\n$3\r\nSET\r\n$1\r\nk\r\n$2\r\nvv\r\n*2\r\n$3\r\nGET\r\n$1\r\nk\r\n*1\r\n$4\r\nPING\r\n"
        .to_string();
    let commands = parse_message(input).expect("three frames");
    let mut server = Server::new();
    let mut out: Vec<u8> = Vec::new();
    for command in commands {
        let reply = if command.mutable {
            server.handle_command_mut(command)
        } else {
            server.handle_command(command)
        };
        out.extend_from_slice(&reply.as_bytes());
    }
    assert_eq!(out, b"+OK\r\n$2\r\nvv\r\n+PONG\r\n");
}

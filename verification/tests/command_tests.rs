use resp_kv::command::Command;
use resp_kv::command::Keyword;
use resp_kv::command::ParseError;
use resp_kv::command::keyword_from_word;
use resp_kv::command::parse_message;
use resp_kv::command::state::State;

#[test]
fn parse_message_no_args() {
    let input = "*1\r\n$4\r\nPING\r\n".to_string();
    let commands = parse_message(input).expect("to parse at least one command");

    assert_eq!(commands.len(), 1);
    assert!(matches!(
        commands.first().unwrap(),
        Command {
            keyword: Keyword::Ping,
            args: a,
            mutable: false,
        } if a.is_empty()
    ));
}

#[test]
fn parse_message_with_args() {
    let input = "*3\r\n$4\r\nECHO\r\n$3\r\nfoo\r\n$3\r\nbar\r\n".to_string();
    let commands = parse_message(input).expect("to parse at least one command");

    assert_eq!(commands.len(), 1);
    assert!(matches!(
        commands.first().unwrap(),
        Command {
            keyword: Keyword::Echo,
            args: a,
            mutable: false,
        } if a.len() == 2
    ));
}

#[test]
fn parse_multiple_messages() {
    // two PING commands
    let input = "*1\r\n$4\r\nPING\r\n*1\r\n$4\r\nPING\r\n".to_string();
    let commands = parse_message(input).expect("to parse at least one command");

    assert_eq!(commands.len(), 2);
    assert_eq!(commands[0].keyword, Keyword::Ping);
    assert_eq!(commands[1].keyword, Keyword::Ping);
}

#[test]
fn parse_empty_input_yields_no_commands() {
    let commands = parse_message(String::new()).expect("empty input is not an error");
    assert!(commands.is_empty());
}

#[test]
fn parse_pipelined_frames_with_args_keep_order() {
    let input = "*3\r\n$4\r\nECHO\r\n$3\r\nfoo\r\n$3\r\nbar\r\n*1\r\n$4\r\nPING\r\n*3\r\n$3\r\nSET\r\n$1\r\nk\r\n$1\r\nv\r\n"
        .to_string();
    let commands = parse_message(input).expect("three well-formed frames");
    assert_eq!(commands.len(), 3);
    assert_eq!(commands[0].keyword, Keyword::Echo);
    assert_eq!(commands[0].args, vec!["foo".to_string(), "bar".to_string()]);
    assert!(!commands[0].mutable);
    assert_eq!(commands[1].keyword, Keyword::Ping);
    assert!(commands[1].args.is_empty());
    assert_eq!(commands[2].keyword, Keyword::SetCmd);
    assert_eq!(commands[2].args, vec!["k".to_string(), "v".to_string()]);
    assert!(commands[2].mutable);
}

#[test]
fn parse_inline_command_line() {
    let commands = parse_message("PING\r\n".to_string()).expect("inline frame");
    assert_eq!(commands.len(), 1);
    assert_eq!(commands[0].keyword, Keyword::Ping);
    assert!(commands[0].args.is_empty());
}

#[test]
fn parse_keyword_is_case_insensitive() {
    let commands = parse_message("*1\r\n$4\r\npInG\r\n".to_string()).expect("mixed case");
    assert_eq!(commands[0].keyword, Keyword::Ping);
    assert_eq!(keyword_from_word("get"), Keyword::Get);
    assert_eq!(keyword_from_word("Echo"), Keyword::Echo);
    assert_eq!(keyword_from_word("set"), Keyword::SetCmd);
    assert_eq!(keyword_from_word("FOO"), Keyword::Unknown);
}

#[test]
fn parse_unrecognized_keyword_still_yields_a_command() {
    let commands = parse_message("*1\r\n$3\r\nFOO\r\n".to_string()).expect("frame decodes");
    assert_eq!(commands.len(), 1);
    assert_eq!(commands[0].keyword, Keyword::Unknown);
    assert!(!commands[0].mutable);
}

#[test]
fn parse_empty_array_emits_no_command() {
    let commands = parse_message("*0\r\n".to_string()).expect("an empty array is well-formed");
    assert!(commands.is_empty());
}

#[test]
fn parse_multi_digit_count() {
    let mut input = String::from("*12\r\n$4\r\nECHO\r\n");
    for _ in 0..11 {
        input.push_str("$1\r\nx\r\n");
    }
    let commands = parse_message(input).expect("twelve elements");
    assert_eq!(commands.len(), 1);
    assert_eq!(commands[0].args.len(), 11);
}

#[test]
fn parse_bad_array_header_is_an_error() {
    assert!(matches!(
        parse_message("*x\r\n".to_string()),
        Err(ParseError::BadArrayHeader)
    ));
    assert!(matches!(
        parse_message("*\r\n".to_string()),
        Err(ParseError::BadArrayHeader)
    ));
    assert!(matches!(
        parse_message("*-1\r\n".to_string()),
        Err(ParseError::BadArrayHeader)
    ));
}

#[test]
fn parse_truncated_frame_is_an_error() {
    assert!(matches!(
        parse_message("*2\r\n$4\r\nECHO\r\n".to_string()),
        Err(ParseError::TruncatedFrame)
    ));
}

#[test]
fn parse_bulk_header_without_literal_is_an_error() {
    assert!(matches!(
        parse_message("*1\r\n$4".to_string()),
        Err(ParseError::MissingBulkLiteral)
    ));
}

#[test]
fn parse_nested_array_is_an_error() {
    assert!(matches!(
        parse_message("*1\r\n*1\r\n$4\r\nPING\r\n".to_string()),
        Err(ParseError::NestedArray)
    ));
}

#[test]
fn keyword_mutability_flags() {
    assert!(Keyword::SetCmd.is_mutable());
    assert!(!Keyword::Ping.is_mutable());
    assert!(!Keyword::Echo.is_mutable());
    assert!(!Keyword::Get.is_mutable());
    assert!(!Keyword::Unknown.is_mutable());
}

#[test]
fn state_collects_keyword_then_args() {
    let mut st = State::new();
    assert!(matches!(st.as_command(), Err(ParseError::NoKeyword)));
    st.add_word("SET");
    st.add_word("key");
    st.add_word("val");
    let c = st.as_command().expect("keyword was fed");
    assert_eq!(c.keyword, Keyword::SetCmd);
    assert_eq!(c.args, vec!["key".to_string(), "val".to_string()]);
    assert!(c.mutable);
}

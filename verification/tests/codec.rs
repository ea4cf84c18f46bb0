use irc::conn::Command;
use irc::conn::Line;
use irc::User;

fn check(input: &[u8], prefix: Option<User>, command: Command, args: Vec<Vec<u8>>, out: &[u8]) {
    let line = Line::parse(input).expect("expected the line to parse");
    assert_eq!(line.prefix, prefix);
    assert_eq!(line.command, command);
    assert_eq!(line.args, args);
    assert_eq!(line.to_raw(), out.to_vec());
}

#[test]
fn parse_line() {
    check(
        b":sendak.freenode.net 001 asldfkj :Welcome to the freenode Internet Relay Chat Network asldfkj",
        Some(User::parse(b"sendak.freenode.net".to_vec())),
        Command::IRCCode(1),
        vec![
            b"asldfkj".to_vec(),
            b"Welcome to the freenode Internet Relay Chat Network asldfkj".to_vec(),
        ],
        b":sendak.freenode.net 001 asldfkj :Welcome to the freenode Internet Relay Chat Network asldfkj",
    );
    check(
        b"004 asdf :This is a test",
        None,
        Command::IRCCode(4),
        vec![b"asdf".to_vec(), b"This is a test".to_vec()],
        b"004 asdf :This is a test",
    );
    check(
        b":nick!user@host.com PRIVMSG #channel :Some message",
        Some(User::parse(b"nick!user@host.com".to_vec())),
        Command::IRCCmd(b"PRIVMSG".to_vec()),
        vec![b"#channel".to_vec(), b"Some message".to_vec()],
        b":nick!user@host.com PRIVMSG #channel :Some message",
    );
    assert_eq!(Line::parse(b" :sendak.freenode.net 001 asdf :Test"), None);
    assert_eq!(Line::parse(b":sendak  001 asdf :Test"), None);
    check(b"004", None, Command::IRCCode(4), vec![], b"004");
    check(
        b":bob!user@host.com PRIVMSG #channel :\x01ACTION does some stuff",
        Some(User::parse(b"bob!user@host.com".to_vec())),
        Command::IRCAction(b"#channel".to_vec()),
        vec![b"does some stuff".to_vec()],
        b":bob!user@host.com PRIVMSG #channel :\x01ACTION does some stuff\x01",
    );
    check(
        b":bob!user@host.com PRIVMSG #channel :\x01VERSION\x01",
        Some(User::parse(b"bob!user@host.com".to_vec())),
        Command::IRCCTCP(b"VERSION".to_vec(), b"#channel".to_vec()),
        vec![],
        b":bob!user@host.com PRIVMSG #channel :\x01VERSION\x01",
    );
    check(
        b":bob NOTICE #frobnitz :\x01RESPONSE to whatever\x01",
        Some(User::parse(b"bob".to_vec())),
        Command::IRCCTCPReply(b"RESPONSE".to_vec(), b"#frobnitz".to_vec()),
        vec![b"to whatever".to_vec()],
        b":bob NOTICE #frobnitz :\x01RESPONSE to whatever\x01",
    );
    assert_eq!(Line::parse(b":bob f\xE2\x88\x9A\xE2\x88\x82o"), None);
    assert_eq!(Line::parse(b":bob f23"), None);
}

#[test]
fn parse_rejects_malformed_lines() {
    // a prefix with no following space
    assert_eq!(Line::parse(b":loneprefix"), None);
    // a leading space means an empty command token
    assert_eq!(Line::parse(b" PING x"), None);
    // a command that is neither letters nor three digits
    assert_eq!(Line::parse(b"12 a b"), None);
    assert_eq!(Line::parse(b"1234 a"), None);
}

#[test]
fn parse_ctcp_empty_span() {
    // an empty 0x01 span: strip-then-split leaves an empty verb
    let line = Line::parse(b":b PRIVMSG #c :\x01\x01").expect("expected the line to parse");
    assert_eq!(line.command, Command::IRCCTCP(b"".to_vec(), b"#c".to_vec()));
    assert_eq!(line.args, Vec::<Vec<u8>>::new());
}

#[test]
fn parse_ctcp_needs_two_arguments() {
    // spec: CTCP detection asks for at least two arguments
    let line = Line::parse(b"PRIVMSG :\x01ACTION hi\x01").expect("expected the line to parse");
    assert_eq!(line.command, Command::IRCCmd(b"PRIVMSG".to_vec()));
    assert_eq!(line.args, vec![b"\x01ACTION hi\x01".to_vec()]);
}

#[test]
fn to_raw_pads_numeric_codes() {
    let line = Line { prefix: None, command: Command::IRCCode(1), args: vec![] };
    assert_eq!(line.to_raw(), b"001".to_vec());
    let line = Line { prefix: None, command: Command::IRCCode(433), args: vec![b"n".to_vec()] };
    assert_eq!(line.to_raw(), b"433 n".to_vec());
}

#[test]
fn to_raw_colons_empty_trailing_argument() {
    // the trailing argument is colon-prefixed when empty or space-containing
    let line = Line {
        prefix: None,
        command: Command::IRCCmd(b"TOPIC".to_vec()),
        args: vec![b"#chan".to_vec(), b"".to_vec()],
    };
    assert_eq!(line.to_raw(), b"TOPIC #chan :".to_vec());
    let again = Line::parse(b"TOPIC #chan :").expect("expected the line to parse");
    assert_eq!(again.args, vec![b"#chan".to_vec(), b"".to_vec()]);
}

use irc::conn::Command;
use irc::conn::Conn;
use irc::conn::Line;
use irc::conn::Options;
use irc::conn::DEFAULT_PORT;
use irc::handlers::handle_line;
use irc::User;

fn fresh_conn(nick: &[u8]) -> Conn {
    let mut opts = Options::new("irc.example.net".to_string(), DEFAULT_PORT);
    opts.nick = nick.to_vec();
    let mut conn = Conn::new(opts);
    conn.open_write();
    conn
}

#[test]
fn test_options_defaults() {
    let opts = Options::new("irc.example.net".to_string(), DEFAULT_PORT);
    assert_eq!(opts.port, 6667);
    assert_eq!(opts.nick, b"ircnick".to_vec());
    assert_eq!(opts.user, b"ircuser".to_vec());
    assert_eq!(opts.real, b"rust-irclib user".to_vec());
}

#[test]
fn test_send_command_frames() {
    let mut conn = fresh_conn(b"n");
    conn.privmsg(b"#chan", b"hello there");
    conn.join(b"#chan", b"");
    conn.join(b"#chan", b"key");
    conn.part(b"#chan", b"");
    conn.part(b"#chan", b"bye bye");
    conn.quit(b"");
    conn.quit(b"gone now");
    conn.send_command(Command::IRCCode(1), &vec![], false);
    let frames = conn.take_outbound();
    assert_eq!(frames[0], b"PRIVMSG #chan :hello there\r\n".to_vec());
    assert_eq!(frames[1], b"JOIN #chan\r\n".to_vec());
    assert_eq!(frames[2], b"JOIN #chan key\r\n".to_vec());
    assert_eq!(frames[3], b"PART #chan\r\n".to_vec());
    assert_eq!(frames[4], b"PART #chan :bye bye\r\n".to_vec());
    assert_eq!(frames[5], b"QUIT\r\n".to_vec());
    assert_eq!(frames[6], b"QUIT :gone now\r\n".to_vec());
    // the send path renders codes via the codec: exactly three padded digits
    assert_eq!(frames[7], b"001\r\n".to_vec());
    assert_eq!(frames.len(), 8);
}

#[test]
fn test_send_handshake_frames() {
    let mut conn = fresh_conn(b"mynick");
    conn.send_handshake(b"mynick", b"myuser", b"my real name");
    let frames = conn.take_outbound();
    assert_eq!(frames[0], b"NICK mynick\r\n".to_vec());
    assert_eq!(frames[1], b"USER myuser 8 * :my real name\r\n".to_vec());
    assert_eq!(frames.len(), 2);
}

#[test]
fn test_send_truncates_to_wire_cap() {
    let mut conn = fresh_conn(b"n");
    let long = vec![b'a'; 4000];
    conn.send_command(
        Command::IRCCmd(b"PRIVMSG".to_vec()),
        &vec![b"#chan".to_vec(), long.clone()],
        true,
    );
    conn.send_raw(&long);
    let frames = conn.take_outbound();
    for frame in &frames {
        assert!(frame.len() <= 512);
        assert_eq!(&frame[frame.len() - 2..], b"\r\n");
    }
    assert_eq!(frames[0].len(), 512);
    assert_eq!(frames[1].len(), 512);
    // the cut is a raw byte-count cut at 510 payload bytes
    let mut expected = b"PRIVMSG #chan :".to_vec();
    expected.extend(vec![b'a'; 510 - expected.len()]);
    expected.extend(b"\r\n");
    assert_eq!(frames[0], expected);
}

#[test]
fn test_send_raw_trims_and_drops_empty() {
    let mut conn = fresh_conn(b"n");
    conn.send_raw(b"WHO #chan\r\n");
    conn.send_raw(b"\r\n");
    conn.send_raw(b"");
    let frames = conn.take_outbound();
    assert_eq!(frames, vec![b"WHO #chan\r\n".to_vec()]);
}

#[test]
fn test_send_after_close_is_noop() {
    let mut conn = fresh_conn(b"n");
    conn.close_write();
    assert!(!conn.is_connected());
    conn.privmsg(b"#chan", b"hello");
    assert_eq!(conn.take_outbound(), Vec::<Vec<u8>>::new());
}

#[test]
fn test_ping_pong() {
    let mut conn = fresh_conn(b"n");
    let line = Line {
        prefix: None,
        command: Command::IRCCmd(b"PING".to_vec()),
        args: vec![b"token".to_vec()],
    };
    handle_line(&mut conn, &line);
    assert_eq!(conn.take_outbound(), vec![b"PONG token\r\n".to_vec()]);
}

#[test]
fn test_nick_collision_flips_last_non_underscore() {
    // recovery on "ab__": the last non-underscore flips, giving "a___"
    let mut conn = fresh_conn(b"ab__");
    let line = Line {
        prefix: None,
        command: Command::IRCCode(432),
        args: vec![b"ab__".to_vec()],
    };
    handle_line(&mut conn, &line);
    assert_eq!(conn.take_outbound(), vec![b"NICK a___\r\n".to_vec()]);
    assert_eq!(conn.me().nick(), b"a___".to_vec());
}

#[test]
fn test_nick_collision_all_underscores_quits() {
    // recovery on "___": nothing left to flip, so quit instead
    let mut conn = fresh_conn(b"___");
    let line = Line {
        prefix: None,
        command: Command::IRCCode(436),
        args: vec![b"___".to_vec()],
    };
    handle_line(&mut conn, &line);
    assert_eq!(conn.take_outbound(), vec![b"QUIT\r\n".to_vec()]);
    assert_eq!(conn.me().nick(), b"___".to_vec());
}

#[test]
fn test_nick_in_use_flips_last_non_underscore() {
    // 433 runs the same recovery as the other collision numerics
    let mut conn = fresh_conn(b"taken");
    let line = Line {
        prefix: None,
        command: Command::IRCCode(433),
        args: vec![b"taken".to_vec()],
    };
    handle_line(&mut conn, &line);
    assert_eq!(conn.take_outbound(), vec![b"NICK take_\r\n".to_vec()]);
    assert_eq!(conn.me().nick(), b"take_".to_vec());
}

#[test]
fn test_nick_in_use_recovers_on_truncated_nick() {
    // 433 with a truncated nick recovers on the nick the server reported
    let mut conn = fresh_conn(b"longnick");
    let line = Line {
        prefix: None,
        command: Command::IRCCode(433),
        args: vec![b"longnic".to_vec()],
    };
    handle_line(&mut conn, &line);
    assert_eq!(conn.take_outbound(), vec![b"NICK longni_\r\n".to_vec()]);
}

#[test]
fn test_welcome_sets_logged_in_and_nick() {
    let mut conn = fresh_conn(b"asked");
    let line = Line {
        prefix: Some(User::parse(b"server.example.net".to_vec())),
        command: Command::IRCCode(1),
        args: vec![b"granted".to_vec(), b"Welcome".to_vec()],
    };
    handle_line(&mut conn, &line);
    assert!(conn.logged_in);
    assert_eq!(conn.me().nick(), b"granted".to_vec());
}

#[test]
fn test_nick_change_tracks_own_nick_only() {
    let mut conn = fresh_conn(b"me");
    conn.logged_in = true;
    let other = Line {
        prefix: Some(User::parse(b"someone!u@h".to_vec())),
        command: Command::IRCCmd(b"NICK".to_vec()),
        args: vec![b"newname".to_vec()],
    };
    handle_line(&mut conn, &other);
    assert_eq!(conn.me().nick(), b"me".to_vec());
    let own = Line {
        prefix: Some(User::parse(b"me!u@h".to_vec())),
        command: Command::IRCCmd(b"NICK".to_vec()),
        args: vec![b"renamed".to_vec()],
    };
    handle_line(&mut conn, &own);
    assert_eq!(conn.me().nick(), b"renamed".to_vec());
}

#[test]
fn test_no_delivery_before_welcome() {
    // no line is handed back for delivery until 001 has been processed
    let mut conn = fresh_conn(b"n");
    assert_eq!(conn.process_line(b":srv NOTICE n :hello"), None);
    assert_eq!(conn.process_line(b"PING :x"), None);
    assert_eq!(conn.take_outbound(), vec![b"PONG x\r\n".to_vec()]);
    assert_eq!(conn.process_line(b":unparsable-no-space"), None);
    assert!(!conn.logged_in);
    let welcome = conn.process_line(b":srv 001 n :Welcome");
    let delivered = welcome.expect("the welcome itself is delivered");
    assert_eq!(delivered.command, Command::IRCCode(1));
    assert!(conn.logged_in);
    let after = conn.process_line(b":srv NOTICE n :hello again");
    assert!(after.is_some());
}

#[test]
fn test_chomp() {
    assert_eq!(irc::conn::chomp(b"abc\r\n"), b"abc");
    assert_eq!(irc::conn::chomp(b"abc\n"), b"abc");
    assert_eq!(irc::conn::chomp(b"abc\r"), b"abc");
    assert_eq!(irc::conn::chomp(b"abc"), b"abc");
    assert_eq!(irc::conn::chomp(b""), b"");
    let mut v = b"abc\r\n".to_vec();
    assert!(irc::conn::chomp_owned(&mut v));
    assert_eq!(v, b"abc".to_vec());
    let mut v = b"abc".to_vec();
    assert!(!irc::conn::chomp_owned(&mut v));
    assert_eq!(v, b"abc".to_vec());
}

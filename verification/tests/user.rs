use irc::User;

#[test]
fn test_user_new() {
    let user = User::new(b"nick", Some(b"user"), Some(b"host"));
    assert_eq!(user.raw(), &b"nick!user@host"[..]);
    assert_eq!(user.nick(), b"nick".to_vec());
    assert_eq!(user.user(), Some(b"user".to_vec()));
    assert_eq!(user.host(), Some(b"host".to_vec()));

    let user = User::new(b"nick", Some(b"user"), None);
    assert_eq!(user.raw(), &b"nick!user"[..]);
    assert_eq!(user.nick(), b"nick".to_vec());
    assert_eq!(user.user(), Some(b"user".to_vec()));
    assert_eq!(user.host(), None);

    let user = User::new(b"nick", None, Some(b"host"));
    assert_eq!(user.raw(), &b"nick@host"[..]);
    assert_eq!(user.nick(), b"nick".to_vec());
    assert_eq!(user.user(), None);
    assert_eq!(user.host(), Some(b"host".to_vec()));

    let user = User::new(b"nick", None, None);
    assert_eq!(user.raw(), &b"nick"[..]);
    assert_eq!(user.nick(), b"nick".to_vec());
    assert_eq!(user.user(), None);
    assert_eq!(user.host(), None);
}

#[test]
fn test_user_parse() {
    let user = User::parse(b"bob!fred@joe.com".to_vec());
    assert_eq!(user.nick(), b"bob".to_vec());
    assert_eq!(user.user(), Some(b"fred".to_vec()));
    assert_eq!(user.host(), Some(b"joe.com".to_vec()));

    let user = User::parse(b"frob@whatever".to_vec());
    assert_eq!(user.nick(), b"frob".to_vec());
    assert_eq!(user.user(), None);
    assert_eq!(user.host(), Some(b"whatever".to_vec()));

    let user = User::parse(b"foo!baz".to_vec());
    assert_eq!(user.nick(), b"foo".to_vec());
    assert_eq!(user.user(), Some(b"baz".to_vec()));
    assert_eq!(user.host(), None);

    let user = User::parse(b"frobnitz".to_vec());
    assert_eq!(user.nick(), b"frobnitz".to_vec());
    assert_eq!(user.user(), None);
    assert_eq!(user.host(), None);

    let user = User::parse(b"host.ircserver.com".to_vec());
    assert_eq!(user.nick(), b"host.ircserver.com".to_vec());
    assert_eq!(user.user(), None);
    assert_eq!(user.host(), None);
}

#[test]
fn test_user_with_nick_reinterprets() {
    // a nick containing delimiters is re-parsed, never trusted
    let user = User::parse(b"alice!u@h".to_vec());
    let changed = user.with_nick(b"x!y");
    assert_eq!(changed.raw(), &b"x!y!u@h"[..]);
    assert_eq!(changed.nick(), b"x".to_vec());
    assert_eq!(changed.user(), Some(b"y!u".to_vec()));
    assert_eq!(changed.host(), Some(b"h".to_vec()));
}

#[test]
fn test_user_at_stops_bang_scan() {
    // a `!` after the `@` is not user-significant
    let user = User::parse(b"nick@host!odd".to_vec());
    assert_eq!(user.nick(), b"nick".to_vec());
    assert_eq!(user.user(), None);
    assert_eq!(user.host(), Some(b"host!odd".to_vec()));
}

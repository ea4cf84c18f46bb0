//! Built-in IRC message handlers: the login-state machine, nick-collision
//! recovery, PING replies, and nick tracking. Each handler's effect on the
//! connection is stated as a transition on the connection model.

use vstd::prelude::*;

use crate::UNDERSCORE;
use crate::nick_of;
use crate::user_of;
use crate::host_of;
use crate::raw_of;
use crate::conn::Conn;
use crate::conn::ConnModel;
use crate::conn::Line;
use crate::conn::LineModel;
use crate::conn::Command;
use crate::conn::CommandModel;
use crate::conn::spec_send_command;
use crate::conn::spec_set_nick;
use crate::conn::spec_quit;
use crate::names::ping_cmd;
use crate::names::pong_cmd;
use crate::names::nick_cmd;
use crate::names::ping_bytes;
use crate::names::pong_bytes;
use crate::names::nick_bytes;
use crate::util::bytes_eq;
use vstd::slice::slice_to_vec;

verus! {

/// Index of the last byte that is not `_`, if any.
pub open spec fn last_non_us(s: Seq<u8>) -> Option<int>
    decreases s.len(),
{
    if s.len() == 0 {
        None
    } else if s.last() != UNDERSCORE {
        Some(s.len() - 1)
    } else {
        last_non_us(s.drop_last())
    }
}

/// The nick-collision mutation: the last non-underscore byte replaced with
/// `_`; nothing when the nick is already all underscores.
pub open spec fn spec_munge(s: Seq<u8>) -> Option<Seq<u8>> {
    match last_non_us(s) {
        Some(i) => Some(s.update(i, UNDERSCORE)),
        None => None,
    }
}

/// `last_non_us` finds the last byte that is not an underscore: everything
/// after it is one.
pub proof fn lemma_last_non_us(s: Seq<u8>)
    ensures
        match last_non_us(s) {
            Some(i) => 0 <= i < s.len() && s[i] != UNDERSCORE && (forall|j: int|
                i < j < s.len() ==> s[j] == UNDERSCORE),
            None => forall|j: int| 0 <= j < s.len() ==> s[j] == UNDERSCORE,
        },
    decreases s.len(),
{
    if s.len() > 0 && s.last() == UNDERSCORE {
        lemma_last_non_us(s.drop_last());
        let dl = s.drop_last();
        match last_non_us(dl) {
            Some(i) => {
                assert(s[i] == dl[i]);
                assert forall|j: int| i < j < s.len() implies s[j] == UNDERSCORE by {
                    if j < s.len() - 1 {
                        assert(dl[j] == s[j]);
                    } else {
                        assert(s[j] == s.last());
                    }
                }
            },
            None => {
                assert forall|j: int| 0 <= j < s.len() implies s[j] == UNDERSCORE by {
                    if j < s.len() - 1 {
                        assert(dl[j] == s[j]);
                    } else {
                        assert(s[j] == s.last());
                    }
                }
            },
        }
    }
}

/// Conversely, a last non-underscore position determines `last_non_us`.
pub proof fn lemma_last_non_us_is(s: Seq<u8>, i: int)
    requires
        0 <= i < s.len(),
        s[i] != UNDERSCORE,
        forall|j: int| i < j < s.len() ==> s[j] == UNDERSCORE,
    ensures
        last_non_us(s) == Some(i),
    decreases s.len(),
{
    if i < s.len() - 1 {
        let dl = s.drop_last();
        assert(dl[i] == s[i]);
        assert forall|j: int| i < j < dl.len() implies dl[j] == UNDERSCORE by {
            assert(dl[j] == s[j]);
        }
        lemma_last_non_us_is(dl, i);
        assert(s[s.len() - 1] == UNDERSCORE);
    }
}

/// When every byte is an underscore, there is nothing to flip.
pub proof fn lemma_last_non_us_none(s: Seq<u8>)
    requires
        forall|j: int| 0 <= j < s.len() ==> s[j] == UNDERSCORE,
    ensures
        last_non_us(s) == None::<int>,
    decreases s.len(),
{
    if s.len() > 0 {
        let dl = s.drop_last();
        assert forall|j: int| 0 <= j < dl.len() implies dl[j] == UNDERSCORE by {
            assert(dl[j] == s[j]);
        }
        lemma_last_non_us_none(dl);
        assert(s.last() == UNDERSCORE);
    }
}

/// The effect of the 001 welcome: logged in, and the first argument adopted
/// as the nick when one is there.
pub open spec fn spec_welcome(c: ConnModel, l: LineModel) -> ConnModel {
    let c1 = ConnModel { logged_in: true, ..c };
    if l.args.len() > 0 {
        ConnModel { user: raw_of(l.args[0], user_of(c.user), host_of(c.user)), ..c1 }
    } else {
        c1
    }
}

/// The effect of nick-collision recovery: the offending nick (the first
/// argument, or the current nick) has its last non-underscore flipped to `_`
/// and is requested via NICK; an all-underscore nick quits instead.
pub open spec fn spec_bad_nick(c: ConnModel, l: LineModel) -> ConnModel {
    let nick = if l.args.len() > 0 {
        l.args[0]
    } else {
        nick_of(c.user)
    };
    match spec_munge(nick) {
        Some(n) => spec_set_nick(c, n),
        None => spec_quit(c, Seq::empty()),
    }
}

/// The effect of PING: a PONG echoing the same arguments.
pub open spec fn spec_pong(c: ConnModel, l: LineModel) -> ConnModel {
    spec_send_command(c, CommandModel::Named(pong_cmd()), l.args, false)
}

/// The effect of a NICK line after login: when the prefix nick is the
/// current nick, the first argument becomes the new nick.
pub open spec fn spec_nick_change(c: ConnModel, l: LineModel) -> ConnModel {
    if l.args.len() == 0 {
        c
    } else {
        match l.prefix {
            Some(p) => if nick_of(p) == nick_of(c.user) {
                ConnModel { user: raw_of(l.args[0], user_of(c.user), host_of(c.user)), ..c }
            } else {
                c
            },
            None => c,
        }
    }
}

/// The built-in dispatch, keyed by login state and command: before login the
/// handshake numerics and PING; after login PING and NICK; everything else
/// leaves the connection unchanged.
pub open spec fn spec_handle_line(c: ConnModel, l: LineModel) -> ConnModel {
    if !c.logged_in {
        match l.command {
            CommandModel::Code(n) => if n == 1 {
                spec_welcome(c, l)
            } else if n == 433 || n == 432 || n == 436 || n == 437 {
                spec_bad_nick(c, l)
            } else {
                c
            },
            CommandModel::Named(s) => if s == ping_cmd() {
                spec_pong(c, l)
            } else {
                c
            },
            _ => c,
        }
    } else {
        match l.command {
            CommandModel::Named(s) => if s == ping_cmd() {
                spec_pong(c, l)
            } else if s == nick_cmd() {
                spec_nick_change(c, l)
            } else {
                c
            },
            _ => c,
        }
    }
}

/// Numeric 001: the welcome. Login is complete; the server's idea of our
/// nick (the first argument) is adopted.
#[allow(non_snake_case)]
pub fn RPL_WELCOME(conn: &mut Conn, line: &Line)
    requires
        old(conn).wf(),
        line.wf(),
    ensures
        final(conn)@ == spec_welcome(old(conn)@, line@),
        final(conn).host == old(conn).host,
        final(conn).wf(),
{
    conn.logged_in = true;
    if line.args.len() > 0 {
        proof {
            assert(line.args@[0]@ == line@.args[0]);
        }
        let u = conn.user.with_nick(line.args[0].as_slice());
        conn.user = u;
    }
    proof {
        assert(conn@ =~~= spec_welcome(old(conn)@, line@));
    }
}

/// The generic nick-collision recovery shared by the collision numerics.
fn bad_nick(conn: &mut Conn, line: &Line)
    requires
        old(conn).wf(),
        line.wf(),
    ensures
        final(conn)@ == spec_bad_nick(old(conn)@, line@),
        final(conn).host == old(conn).host,
        final(conn).wf(),
{
    let mut nick: Vec<u8>;
    if line.args.len() > 0 {
        proof {
            assert(line.args@[0]@ == line@.args[0]);
        }
        nick = slice_to_vec(line.args[0].as_slice());
    } else {
        nick = conn.user.nick();
    }
    let ghost nm = nick@;
    // scan from the end for the first byte that is not an underscore
    let mut k = nick.len();
    let mut found: Option<usize> = None;
    while k > 0 && found.is_none()
        invariant
            k <= nick@.len(),
            nick@ == nm,
            match found {
                Some(i) => 1 <= k && i == k - 1 && nm[i as int] != UNDERSCORE && (forall|j: int|
                    i < j < nm.len() ==> nm[j] == UNDERSCORE),
                None => forall|j: int| k <= j < nm.len() ==> nm[j] == UNDERSCORE,
            },
        decreases k + (if found.is_none() {
            1int
        } else {
            0int
        }),
    {
        if nick[k - 1] != UNDERSCORE {
            found = Some(k - 1);
        } else {
            k -= 1;
        }
    }
    match found {
        Some(i) => {
            proof {
                lemma_last_non_us_is(nm, i as int);
            }
            nick[i] = UNDERSCORE;
            proof {
                assert(nick@ =~= nm.update(i as int, UNDERSCORE));
            }
            conn.set_nick(nick.as_slice());
            proof {
                assert(conn@ =~~= spec_bad_nick(old(conn)@, line@));
            }
        },
        None => {
            proof {
                lemma_last_non_us_none(nm);
            }
            let empty_msg: Vec<u8> = Vec::new();
            conn.quit(empty_msg.as_slice());
            proof {
                assert(empty_msg@ =~= Seq::<u8>::empty());
                assert(conn@ =~~= spec_bad_nick(old(conn)@, line@));
            }
        },
    }
}

/// Numeric 433: nickname in use.
#[allow(non_snake_case)]
pub fn ERR_NICKNAMEINUSE(conn: &mut Conn, line: &Line)
    requires
        old(conn).wf(),
        line.wf(),
    ensures
        final(conn)@ == spec_bad_nick(old(conn)@, line@),
        final(conn).host == old(conn).host,
        final(conn).wf(),
{
    bad_nick(conn, line);
}

/// Numeric 432: erroneous nickname.
#[allow(non_snake_case)]
pub fn ERR_ERRONEUSNICKNAME(conn: &mut Conn, line: &Line)
    requires
        old(conn).wf(),
        line.wf(),
    ensures
        final(conn)@ == spec_bad_nick(old(conn)@, line@),
        final(conn).host == old(conn).host,
        final(conn).wf(),
{
    bad_nick(conn, line);
}

/// Numeric 436: nickname collision.
#[allow(non_snake_case)]
pub fn ERR_NICKCOLLISION(conn: &mut Conn, line: &Line)
    requires
        old(conn).wf(),
        line.wf(),
    ensures
        final(conn)@ == spec_bad_nick(old(conn)@, line@),
        final(conn).host == old(conn).host,
        final(conn).wf(),
{
    bad_nick(conn, line);
}

/// Numeric 437: nick or channel temporarily unavailable.
#[allow(non_snake_case)]
pub fn ERR_UNAVAILRESOURCE(conn: &mut Conn, line: &Line)
    requires
        old(conn).wf(),
        line.wf(),
    ensures
        final(conn)@ == spec_bad_nick(old(conn)@, line@),
        final(conn).host == old(conn).host,
        final(conn).wf(),
{
    bad_nick(conn, line);
}

/// PING: reply with PONG, echoing the same arguments.
#[allow(non_snake_case)]
pub fn PING(conn: &mut Conn, line: &Line)
    requires
        old(conn).wf(),
        line.wf(),
    ensures
        final(conn)@ == spec_pong(old(conn)@, line@),
        final(conn).host == old(conn).host,
        final(conn).wf(),
{
    let pb = pong_bytes();
    conn.send_command(Command::IRCCmd(pb), &line.args, false);
}

/// NICK after login: when the prefix names us, adopt the new nick.
#[allow(non_snake_case)]
pub fn NICK(conn: &mut Conn, line: &Line)
    requires
        old(conn).wf(),
        line.wf(),
    ensures
        final(conn)@ == spec_nick_change(old(conn)@, line@),
        final(conn).host == old(conn).host,
        final(conn).wf(),
{
    if line.args.len() == 0 {
        return;
    }
    match &line.prefix {
        Some(user) => {
            let pn = user.nick();
            let mn = conn.user.nick();
            if bytes_eq(pn.as_slice(), mn.as_slice()) {
                proof {
                    assert(line.args@[0]@ == line@.args[0]);
                }
                let u = conn.user.with_nick(line.args[0].as_slice());
                conn.user = u;
            }
            proof {
                assert(conn@ =~~= spec_nick_change(old(conn)@, line@));
            }
        },
        None => (),
    }
}

/// The built-in dispatch run on every parsed line before caller delivery.
pub fn handle_line(conn: &mut Conn, line: &Line)
    requires
        old(conn).wf(),
        line.wf(),
    ensures
        final(conn)@ == spec_handle_line(old(conn)@, line@),
        final(conn).host == old(conn).host,
        final(conn).wf(),
{
    if !conn.logged_in {
        match &line.command {
            Command::IRCCode(c) => {
                let c = *c;
                if c == 1 {
                    RPL_WELCOME(conn, line);
                } else if c == 433 {
                    ERR_NICKNAMEINUSE(conn, line);
                } else if c == 432 {
                    ERR_ERRONEUSNICKNAME(conn, line);
                } else if c == 436 {
                    ERR_NICKCOLLISION(conn, line);
                } else if c == 437 {
                    ERR_UNAVAILRESOURCE(conn, line);
                }
            },
            Command::IRCCmd(s) => {
                let pname = ping_bytes();
                if bytes_eq(s.as_slice(), pname.as_slice()) {
                    PING(conn, line);
                }
            },
            _ => (),
        }
    } else {
        match &line.command {
            Command::IRCCmd(s) => {
                let pname = ping_bytes();
                let nname = nick_bytes();
                if bytes_eq(s.as_slice(), pname.as_slice()) {
                    PING(conn, line);
                } else if bytes_eq(s.as_slice(), nname.as_slice()) {
                    NICK(conn, line);
                }
            },
            _ => (),
        }
    }
}

impl Conn {
    /// Process one inbound line, as the event loop does: parse it (an
    /// unparsable line leaves the connection unchanged), dispatch it to the
    /// built-in handlers, and hand the Line back for caller delivery only if
    /// the connection is logged in after that dispatch.
    pub fn process_line(&mut self, raw: &[u8]) -> (r: Option<Line>)
        requires
            old(self).wf(),
        ensures
            final(self).host == old(self).host,
            final(self).wf(),
            match crate::codec::spec_parse(raw@) {
                None => final(self)@ == old(self)@ && r is None,
                Some(lm) => {
                    &&& final(self)@ == spec_handle_line(old(self)@, lm)
                    &&& (r is Some <==> spec_handle_line(old(self)@, lm).logged_in)
                    &&& (match r {
                        Some(l) => l@ == lm && l.wf(),
                        None => true,
                    })
                },
            },
    {
        match Line::parse(raw) {
            None => None,
            Some(line) => {
                handle_line(self, &line);
                if self.logged_in {
                    Some(line)
                } else {
                    None
                }
            },
        }
    }
}

} // verus!

//! Connection state and the command-sending API: the session's host, login
//! state, current identity, and the queue of outbound wire frames, together
//! with the Line and Command data model.
//!
//! The I/O itself (sockets, worker threads, the readiness loop) lives outside
//! the library; the library renders frames into the outbound queue and
//! processes inbound lines, and every step is specified against the
//! connection's mathematical model.

use vstd::prelude::*;

use crate::User;
use crate::user_of;
use crate::host_of;
use crate::raw_of;
use crate::CR;
use crate::LF;
use crate::codec::render_command;
use crate::codec::wire_frame;
use crate::names::nick_cmd;
use crate::names::quit_cmd;
use crate::names::user_cmd;
use crate::names::privmsg_cmd;
use crate::names::join_cmd;
use crate::names::part_cmd;
use crate::names::user_mode_args;
use crate::names::default_nick;
use crate::names::default_user;
use crate::names::default_real;
use crate::names::nick_bytes;
use crate::names::quit_bytes;
use crate::names::user_bytes;
use crate::names::privmsg_bytes;
use crate::names::join_bytes;
use crate::names::part_bytes;
use crate::names::user_mode_bytes;
use crate::names::default_nick_bytes;
use crate::names::default_user_bytes;
use crate::names::default_real_bytes;
use crate::util::views_of;
use crate::util::lemma_views_of_push;
use crate::util::sub_vec;
use crate::util::append_slice;
use vstd::slice::slice_subrange;
use vstd::slice::slice_to_vec;

verus! {

broadcast use crate::util::lemma_views_of_push;

/// The default IRC port.
pub const DEFAULT_PORT: u16 = 6667;

/// An IP address, as plain values.
#[derive(Clone, Copy, PartialEq, Eq, Debug)]
pub enum IpAddr {
    /// Four dotted-quad octets.
    V4(u8, u8, u8, u8),
    /// Eight 16-bit groups.
    V6(u16, u16, u16, u16, u16, u16, u16, u16),
}

/// The server to connect to: a host name to resolve, or a literal address.
#[derive(Clone, PartialEq, Eq, Debug)]
pub enum OptionsHost {
    /// Host string.
    Host(String),
    /// IP address.
    Addr(IpAddr),
}

/// Options used when connecting to a server.
#[derive(Clone, Debug)]
pub struct Options {
    /// The server host to connect to.
    pub host: OptionsHost,
    /// The server port to connect to.
    pub port: u16,
    /// The nickname to use.
    pub nick: Vec<u8>,
    /// The username to use.
    pub user: Vec<u8>,
    /// The real name to use.
    pub real: Vec<u8>,
}

impl Options {
    /// A new Options with the given host and port and the default identity.
    pub fn new(host: String, port: u16) -> (r: Options)
        ensures
            r.host == OptionsHost::Host(host),
            r.port == port,
            r.nick@ == default_nick(),
            r.user@ == default_user(),
            r.real@ == default_real(),
    {
        Options {
            host: OptionsHost::Host(host),
            port,
            nick: default_nick_bytes(),
            user: default_user_bytes(),
            real: default_real_bytes(),
        }
    }
}

/// Events delivered to the caller's callback.
#[derive(Clone, PartialEq, Eq, Debug)]
pub enum Event {
    /// The connection was established.
    Connected,
    /// A line was received from the server. Not delivered until the login
    /// handshake has completed; the first delivered line is the 001 welcome.
    LineReceived(Line),
    /// The connection has terminated.
    Disconnected,
}

/// Errors a connection attempt or an active session can surface.
#[derive(Clone, PartialEq, Eq, Debug)]
pub enum Error {
    /// Error resolving the host address.
    ErrResolve(String),
    /// Error connecting to the server.
    ErrConnect(String),
    /// I/O error raised while the connection was active.
    ErrIO(String),
}

/// An IRC command.
#[derive(Clone, PartialEq, Eq, Debug)]
pub enum Command {
    /// A named command, as its byte token.
    IRCCmd(Vec<u8>),
    /// A 3-digit command code.
    IRCCode(u32),
    /// A CTCP action. The argument is the destination.
    IRCAction(Vec<u8>),
    /// A CTCP command. The arguments are the verb and the destination.
    IRCCTCP(Vec<u8>, Vec<u8>),
    /// A CTCP reply. The arguments are the verb and the destination.
    IRCCTCPReply(Vec<u8>, Vec<u8>),
}

/// The mathematical model of a Command.
#[verifier::ext_equal]
pub ghost enum CommandModel {
    /// A named command.
    Named(Seq<u8>),
    /// A numeric command code.
    Code(int),
    /// A CTCP action aimed at a destination.
    Action(Seq<u8>),
    /// A CTCP command: verb, destination.
    Ctcp(Seq<u8>, Seq<u8>),
    /// A CTCP reply: verb, destination.
    CtcpReply(Seq<u8>, Seq<u8>),
}

impl CommandModel {
    /// Whether the command is one of the CTCP variants.
    pub open spec fn is_ctcp(self) -> bool {
        match self {
            CommandModel::Named(_) => false,
            CommandModel::Code(_) => false,
            _ => true,
        }
    }
}

impl View for Command {
    type V = CommandModel;

    open spec fn view(&self) -> CommandModel {
        match self {
            Command::IRCCmd(s) => CommandModel::Named(s@),
            Command::IRCCode(c) => CommandModel::Code(*c as int),
            Command::IRCAction(dst) => CommandModel::Action(dst@),
            Command::IRCCTCP(verb, dst) => CommandModel::Ctcp(verb@, dst@),
            Command::IRCCTCPReply(verb, dst) => CommandModel::CtcpReply(verb@, dst@),
        }
    }
}

impl Command {
    /// Whether the command is a CTCP command.
    pub fn is_ctcp(&self) -> (r: bool)
        ensures
            r == self@.is_ctcp(),
    {
        match self {
            Command::IRCAction(_) => true,
            Command::IRCCTCP(_, _) => true,
            Command::IRCCTCPReply(_, _) => true,
            _ => false,
        }
    }
}

/// A parsed line.
#[derive(Clone, PartialEq, Eq, Debug)]
pub struct Line {
    /// The optional prefix.
    pub prefix: Option<User>,
    /// The command.
    pub command: Command,
    /// Any arguments.
    pub args: Vec<Vec<u8>>,
}

/// The mathematical model of a Line.
#[verifier::ext_equal]
pub ghost struct LineModel {
    /// The optional prefix, as its raw identity bytes.
    pub prefix: Option<Seq<u8>>,
    /// The command.
    pub command: CommandModel,
    /// The arguments.
    pub args: Seq<Seq<u8>>,
}

impl View for Line {
    type V = LineModel;

    open spec fn view(&self) -> LineModel {
        LineModel {
            prefix: match self.prefix {
                Some(u) => Some(u@),
                None => None,
            },
            command: self.command@,
            args: views_of(self.args@),
        }
    }
}

impl Line {
    /// The prefix offsets are re-parse-derived and a numeric code has three
    /// digits.
    pub open spec fn wf(&self) -> bool {
        &&& match self.prefix {
            Some(u) => u.wf(),
            None => true,
        }
        &&& match self.command {
            Command::IRCCode(c) => c < 1000,
            _ => true,
        }
    }
}

/// A trailing line terminator removed: one final CR, or one final LF with an
/// optional CR before it.
pub open spec fn spec_chomp(s: Seq<u8>) -> Seq<u8> {
    if s.len() > 0 && s.last() == CR {
        s.drop_last()
    } else if s.len() > 0 && s.last() == LF {
        if s.len() > 1 && s[s.len() - 2] == CR {
            s.take(s.len() - 2)
        } else {
            s.drop_last()
        }
    } else {
        s
    }
}

/// What `spec_chomp` keeps is a prefix of the input.
pub proof fn lemma_chomp_is_prefix(s: Seq<u8>)
    ensures
        spec_chomp(s).len() <= s.len(),
        spec_chomp(s) == s.take(spec_chomp(s).len() as int),
{
    assert(spec_chomp(s) =~= s.take(spec_chomp(s).len() as int));
}

/// Trailing CR/LF removed from a borrowed slice.
pub fn chomp(s: &[u8]) -> (r: &[u8])
    ensures
        r@ == spec_chomp(s@),
{
    if s.len() > 0 {
        let last = s[s.len() - 1];
        if last == CR {
            slice_subrange(s, 0, s.len() - 1)
        } else if last == LF {
            if s.len() > 1 && s[s.len() - 2] == CR {
                slice_subrange(s, 0, s.len() - 2)
            } else {
                slice_subrange(s, 0, s.len() - 1)
            }
        } else {
            s
        }
    } else {
        s
    }
}

/// Trailing CR/LF removed in place; reports whether a terminator was there.
pub fn chomp_owned(s: &mut Vec<u8>) -> (r: bool)
    ensures
        final(s)@ == spec_chomp(old(s)@),
        r == (spec_chomp(old(s)@).len() < old(s)@.len()),
{
    proof {
        lemma_chomp_is_prefix(s@);
    }
    let len = chomp(s.as_slice()).len();
    if len < s.len() {
        s.truncate(len);
        proof {
            assert(s@ =~= spec_chomp(old(s)@));
        }
        true
    } else {
        false
    }
}

/// A well-formed wire frame: at most 512 bytes, ending in CRLF.
pub open spec fn frame_wf(f: Seq<u8>) -> bool {
    &&& 2 <= f.len() <= 512
    &&& f[f.len() - 2] == CR
    &&& f[f.len() - 1] == LF
}

/// The mathematical model of a connection: whether the outbound channel is
/// open, the frames enqueued for the writer, the login state, and the raw
/// bytes of the current identity.
#[verifier::ext_equal]
pub ghost struct ConnModel {
    /// Whether outbound frames are still accepted.
    pub write_open: bool,
    /// The outbound frames, in enqueue order.
    pub queue: Seq<Seq<u8>>,
    /// Whether numeric 001 has been processed.
    pub logged_in: bool,
    /// The raw identity of the current user.
    pub user: Seq<u8>,
}

/// Enqueue one rendered payload, truncated and CRLF-terminated, if the
/// outbound channel is open; a silent no-op otherwise.
pub open spec fn spec_enqueue(c: ConnModel, payload: Seq<u8>) -> ConnModel {
    if c.write_open {
        ConnModel { queue: c.queue.push(wire_frame(payload)), ..c }
    } else {
        c
    }
}

/// The effect of `send_command` on the connection model.
pub open spec fn spec_send_command(
    c: ConnModel,
    cm: CommandModel,
    args: Seq<Seq<u8>>,
    add_colon: bool,
) -> ConnModel {
    spec_enqueue(c, render_command(cm, args, add_colon))
}

/// The effect of `send_raw` on the connection model.
pub open spec fn spec_send_raw(c: ConnModel, raw: Seq<u8>) -> ConnModel {
    if spec_chomp(raw).len() == 0 {
        c
    } else {
        spec_enqueue(c, spec_chomp(raw))
    }
}

/// The effect of `set_nick` on the connection model: request the nick, and
/// before login also adopt it locally.
pub open spec fn spec_set_nick(c: ConnModel, nick: Seq<u8>) -> ConnModel {
    let c1 = spec_send_command(c, CommandModel::Named(nick_cmd()), seq![nick], false);
    if !c.logged_in {
        ConnModel { user: raw_of(nick, user_of(c.user), host_of(c.user)), ..c1 }
    } else {
        c1
    }
}

/// The effect of `quit` on the connection model.
pub open spec fn spec_quit(c: ConnModel, msg: Seq<u8>) -> ConnModel {
    if msg.len() == 0 {
        spec_send_command(c, CommandModel::Named(quit_cmd()), Seq::empty(), false)
    } else {
        spec_send_command(c, CommandModel::Named(quit_cmd()), seq![msg], true)
    }
}

/// A connection to a single IRC server.
pub struct Conn {
    /// The host this connection was created for.
    pub host: OptionsHost,
    /// Whether the outbound channel is open: set when the session's workers
    /// start, cleared when shutdown begins.
    pub write_open: bool,
    /// Outbound wire frames awaiting the writer, in enqueue order.
    pub queue: Vec<Vec<u8>>,
    /// True once numeric 001 has been processed.
    pub logged_in: bool,
    /// The current user identity.
    pub user: User,
}

impl View for Conn {
    type V = ConnModel;

    open spec fn view(&self) -> ConnModel {
        ConnModel {
            write_open: self.write_open,
            queue: views_of(self.queue@),
            logged_in: self.logged_in,
            user: self.user@,
        }
    }
}

impl Conn {
    /// The identity offsets are consistent and every queued frame is a
    /// well-formed wire frame.
    pub open spec fn wf(&self) -> bool {
        &&& self.user.wf()
        &&& forall|i: int| 0 <= i < self@.queue.len() ==> frame_wf(#[trigger] self@.queue[i])
    }

    /// A fresh connection for the given options: outbound channel closed,
    /// not logged in, identity `nick!user`.
    pub fn new(opts: Options) -> (c: Conn)
        ensures
            c.host == opts.host,
            c@ == (ConnModel {
                write_open: false,
                queue: Seq::empty(),
                logged_in: false,
                user: raw_of(opts.nick@, Some(opts.user@), None),
            }),
            c.wf(),
    {
        let user = User::new(opts.nick.as_slice(), Some(opts.user.as_slice()), None);
        let c = Conn { host: opts.host, write_open: false, queue: Vec::new(), logged_in: false, user };
        proof {
            assert(c@.queue =~= Seq::<Seq<u8>>::empty());
            assert(c@ =~= ConnModel {
                write_open: false,
                queue: Seq::empty(),
                logged_in: false,
                user: raw_of(opts.nick@, Some(opts.user@), None),
            });
        }
        c
    }

    /// Open the outbound channel: the session's workers are running.
    pub fn open_write(&mut self)
        requires
            old(self).wf(),
        ensures
            final(self)@ == (ConnModel { write_open: true, ..old(self)@ }),
            final(self).host == old(self).host,
            final(self).wf(),
    {
        self.write_open = true;
    }

    /// Close the outbound channel: shutdown has begun, no further writes.
    pub fn close_write(&mut self)
        requires
            old(self).wf(),
        ensures
            final(self)@ == (ConnModel { write_open: false, ..old(self)@ }),
            final(self).host == old(self).host,
            final(self).wf(),
    {
        self.write_open = false;
    }

    /// Hand out the frames enqueued so far, oldest first, leaving the queue
    /// empty.
    pub fn take_outbound(&mut self) -> (r: Vec<Vec<u8>>)
        requires
            old(self).wf(),
        ensures
            views_of(r@) == old(self)@.queue,
            final(self)@ == (ConnModel { queue: Seq::empty(), ..old(self)@ }),
            final(self).host == old(self).host,
            final(self).wf(),
    {
        let mut out: Vec<Vec<u8>> = Vec::new();
        core::mem::swap(&mut out, &mut self.queue);
        proof {
            assert(self@.queue =~= Seq::<Seq<u8>>::empty());
            assert(self@ =~= (ConnModel { queue: Seq::empty(), ..old(self)@ }));
        }
        out
    }

    /// Whether the connection is still accepting outbound frames.
    pub fn is_connected(&self) -> (r: bool)
        ensures
            r == self.write_open,
    {
        self.write_open
    }

    /// The host that was used to create this connection.
    pub fn host(&self) -> (r: &OptionsHost)
        ensures
            r == self.host,
    {
        &self.host
    }

    /// The current user identity.
    pub fn me(&self) -> (r: &User)
        ensures
            r == self.user,
    {
        &self.user
    }

    /// Sends a command to the server: the rendered line is truncated to 510
    /// payload bytes, CRLF-terminated, and enqueued. A no-op once the
    /// outbound channel is closed. The args are space-separated; `add_colon`
    /// puts a `:` before the final argument. No content validation is
    /// performed.
    #[verifier::rlimit(100)]
    pub fn send_command(&mut self, cmd: Command, args: &Vec<Vec<u8>>, add_colon: bool)
        requires
            old(self).wf(),
        ensures
            final(self)@ == spec_send_command(old(self)@, cmd@, views_of(args@), add_colon),
            final(self).host == old(self).host,
            final(self).wf(),
    {
        let ghost argv = views_of(args@);
        if !self.write_open {
            proof {
                assert(self@ =~~= spec_send_command(old(self)@, cmd@, argv, add_colon));
            }
            return;
        }
        let mut line: Vec<u8> = Vec::new();
        match &cmd {
            Command::IRCCmd(s) => {
                append_slice(&mut line, s.as_slice());
            },
            Command::IRCCode(c) => {
                let c = *c;
                line.push(#[verifier::truncate] ((48 + c / 100) as u8));
                line.push((48 + (c / 10) % 10) as u8);
                line.push((48 + c % 10) as u8);
                proof {
                    assert(line@ =~= crate::codec::code3(c as int));
                }
            },
            Command::IRCAction(dst) => {
                let name = privmsg_bytes();
                append_slice(&mut line, name.as_slice());
                line.push(crate::SPACE);
                append_slice(&mut line, dst.as_slice());
                line.push(crate::SPACE);
                line.push(crate::COLON);
                line.push(crate::CTCP_MARK);
                let verb = crate::names::action_bytes();
                append_slice(&mut line, verb.as_slice());
            },
            Command::IRCCTCP(verb, dst) => {
                let name = privmsg_bytes();
                append_slice(&mut line, name.as_slice());
                line.push(crate::SPACE);
                append_slice(&mut line, dst.as_slice());
                line.push(crate::SPACE);
                line.push(crate::COLON);
                line.push(crate::CTCP_MARK);
                append_slice(&mut line, verb.as_slice());
            },
            Command::IRCCTCPReply(verb, dst) => {
                let name = crate::names::notice_bytes();
                append_slice(&mut line, name.as_slice());
                line.push(crate::SPACE);
                append_slice(&mut line, dst.as_slice());
                line.push(crate::SPACE);
                line.push(crate::COLON);
                line.push(crate::CTCP_MARK);
                append_slice(&mut line, verb.as_slice());
            },
        }
        proof {
            assert(line@ =~= crate::codec::command_wire(cmd@));
        }
        let ghost base = line@;
        if args.len() > 0 {
            let n = args.len();
            let mut i: usize = 0;
            proof {
                assert(argv.take(0) =~= Seq::<Seq<u8>>::empty());
                assert(line@ =~= base + crate::codec::sp_join(argv.take(0)));
            }
            while i < n - 1
                invariant
                    n >= 1,
                    i <= n - 1,
                    n == args@.len(),
                    argv == views_of(args@),
                    line@ == base + crate::codec::sp_join(argv.take(i as int)),
                decreases n - i,
            {
                line.push(crate::SPACE);
                append_slice(&mut line, args[i].as_slice());
                proof {
                    crate::codec::lemma_sp_join_snoc(argv, i as int);
                    assert(argv[i as int] == args@[i as int]@);
                    assert(line@ =~= base + crate::codec::sp_join(argv.take(i + 1)));
                }
                i += 1;
            }
            proof {
                assert(argv.take(n - 1) =~= argv.drop_last());
            }
            line.push(crate::SPACE);
            if add_colon {
                line.push(crate::COLON);
            }
            append_slice(&mut line, args[n - 1].as_slice());
            proof {
                assert(argv.last() == args@[n - 1]@);
                assert(line@ =~= base + crate::codec::args_tail(argv, add_colon));
            }
        } else {
            proof {
                assert(line@ =~= base + crate::codec::args_tail(argv, add_colon));
            }
        }
        if cmd.is_ctcp() {
            line.push(crate::CTCP_MARK);
        }
        proof {
            assert(line@ =~= render_command(cmd@, argv, add_colon));
        }
        self.enqueue_payload(line);
        proof {
            assert(self@ =~~= spec_send_command(old(self)@, cmd@, argv, add_colon));
        }
    }

    /// Truncate a rendered payload to 510 bytes, terminate it with CRLF, and
    /// enqueue the frame. The caller has already checked `write_open`.
    fn enqueue_payload(&mut self, payload: Vec<u8>)
        requires
            old(self).wf(),
            old(self).write_open,
        ensures
            final(self)@ == (ConnModel {
                queue: old(self)@.queue.push(wire_frame(payload@)),
                ..old(self)@
            }),
            final(self).host == old(self).host,
            final(self).wf(),
    {
        let ghost pv = payload@;
        let mut line = payload;
        if line.len() > 510 {
            line.truncate(510);
        }
        line.push(CR);
        line.push(LF);
        proof {
            assert(line@ =~= wire_frame(pv));
        }
        let ghost gframe = line@;
        self.queue.push(line);
        proof {
            assert(frame_wf(gframe));
            assert(self@ =~~= (ConnModel { queue: old(self)@.queue.push(wire_frame(pv)), ..old(
                self,
            )@ }));
            assert forall|i: int| 0 <= i < self@.queue.len() implies frame_wf(
                #[trigger] self@.queue[i],
            ) by {
                if i < old(self)@.queue.len() {
                    assert(frame_wf(old(self)@.queue[i]));
                } else {
                    assert(self@.queue[i] == gframe);
                }
            }
        }
    }

    /// Sends a raw line to the server: exactly the given bytes, except that
    /// a trailing terminator is trimmed, the line is truncated to 510 bytes
    /// and CRLF-terminated. An all-terminator or empty line is a no-op.
    pub fn send_raw(&mut self, raw: &[u8])
        requires
            old(self).wf(),
        ensures
            final(self)@ == spec_send_raw(old(self)@, raw@),
            final(self).host == old(self).host,
            final(self).wf(),
    {
        let trimmed = chomp(raw);
        if trimmed.len() == 0 {
            return;
        }
        if !self.write_open {
            return;
        }
        let payload = sub_vec(trimmed, 0, trimmed.len());
        proof {
            assert(payload@ =~= spec_chomp(raw@));
        }
        self.enqueue_payload(payload);
        proof {
            assert(self@ =~~= spec_send_raw(old(self)@, raw@));
        }
    }

    /// Sets the user's nickname: requests it with a NICK command, and before
    /// login also adopts it locally; after login the NICK reply is awaited
    /// instead.
    pub fn set_nick(&mut self, nick: &[u8])
        requires
            old(self).wf(),
        ensures
            final(self)@ == spec_set_nick(old(self)@, nick@),
            final(self).host == old(self).host,
            final(self).wf(),
    {
        let nb = nick_bytes();
        let mut argvec: Vec<Vec<u8>> = Vec::new();
        argvec.push(slice_to_vec(nick));
        proof {
            assert(views_of(argvec@) =~= seq![nick@]);
        }
        self.send_command(Command::IRCCmd(nb), &argvec, false);
        if !self.logged_in {
            let u = self.user.with_nick(nick);
            self.user = u;
        }
        proof {
            assert(self@ =~~= spec_set_nick(old(self)@, nick@));
        }
    }

    /// Quits the connection: sends QUIT, with the message as a trailing
    /// argument when one is given.
    pub fn quit(&mut self, msg: &[u8])
        requires
            old(self).wf(),
        ensures
            final(self)@ == spec_quit(old(self)@, msg@),
            final(self).host == old(self).host,
            final(self).wf(),
    {
        let qb = quit_bytes();
        if msg.len() == 0 {
            let argvec: Vec<Vec<u8>> = Vec::new();
            proof {
                assert(views_of(argvec@) =~= Seq::<Seq<u8>>::empty());
            }
            self.send_command(Command::IRCCmd(qb), &argvec, false);
            proof {
                assert(self@ =~~= spec_quit(old(self)@, msg@));
            }
        } else {
            let mut argvec: Vec<Vec<u8>> = Vec::new();
            argvec.push(slice_to_vec(msg));
            proof {
                assert(views_of(argvec@) =~= seq![msg@]);
            }
            self.send_command(Command::IRCCmd(qb), &argvec, true);
            proof {
                assert(self@ =~~= spec_quit(old(self)@, msg@));
            }
        }
    }

    /// Sends a PRIVMSG with the message as the trailing argument.
    pub fn privmsg(&mut self, dst: &[u8], msg: &[u8])
        requires
            old(self).wf(),
        ensures
            final(self)@ == spec_send_command(
                old(self)@,
                CommandModel::Named(privmsg_cmd()),
                seq![dst@, msg@],
                true,
            ),
            final(self).host == old(self).host,
            final(self).wf(),
    {
        let pb = privmsg_bytes();
        let mut argvec: Vec<Vec<u8>> = Vec::new();
        argvec.push(slice_to_vec(dst));
        argvec.push(slice_to_vec(msg));
        proof {
            assert(views_of(argvec@) =~= seq![dst@, msg@]);
        }
        self.send_command(Command::IRCCmd(pb), &argvec, true);
    }

    /// Sends a JOIN for a room, with the keys when some are given.
    pub fn join(&mut self, room: &[u8], keys: &[u8])
        requires
            old(self).wf(),
        ensures
            final(self)@ == (if keys@.len() == 0 {
                spec_send_command(old(self)@, CommandModel::Named(join_cmd()), seq![room@], false)
            } else {
                spec_send_command(
                    old(self)@,
                    CommandModel::Named(join_cmd()),
                    seq![room@, keys@],
                    false,
                )
            }),
            final(self).host == old(self).host,
            final(self).wf(),
    {
        let jb = join_bytes();
        let mut argvec: Vec<Vec<u8>> = Vec::new();
        argvec.push(slice_to_vec(room));
        if keys.len() == 0 {
            proof {
                assert(views_of(argvec@) =~= seq![room@]);
            }
            self.send_command(Command::IRCCmd(jb), &argvec, false);
        } else {
            argvec.push(slice_to_vec(keys));
            proof {
                assert(views_of(argvec@) =~= seq![room@, keys@]);
            }
            self.send_command(Command::IRCCmd(jb), &argvec, false);
        }
    }

    /// Sends a PART for a room, with the message as a trailing argument when
    /// one is given.
    pub fn part(&mut self, room: &[u8], msg: &[u8])
        requires
            old(self).wf(),
        ensures
            final(self)@ == (if msg@.len() == 0 {
                spec_send_command(old(self)@, CommandModel::Named(part_cmd()), seq![room@], false)
            } else {
                spec_send_command(
                    old(self)@,
                    CommandModel::Named(part_cmd()),
                    seq![room@, msg@],
                    true,
                )
            }),
            final(self).host == old(self).host,
            final(self).wf(),
    {
        let pb = part_bytes();
        let mut argvec: Vec<Vec<u8>> = Vec::new();
        argvec.push(slice_to_vec(room));
        if msg.len() == 0 {
            proof {
                assert(views_of(argvec@) =~= seq![room@]);
            }
            self.send_command(Command::IRCCmd(pb), &argvec, false);
        } else {
            argvec.push(slice_to_vec(msg));
            proof {
                assert(views_of(argvec@) =~= seq![room@, msg@]);
            }
            self.send_command(Command::IRCCmd(pb), &argvec, true);
        }
    }

    /// Sends the login handshake: NICK with the nickname, and USER with the
    /// username, the fixed mode arguments, and the real name trailing.
    pub fn send_handshake(&mut self, nick: &[u8], username: &[u8], realname: &[u8])
        requires
            old(self).wf(),
        ensures
            final(self)@ == spec_send_command(
                spec_send_command(old(self)@, CommandModel::Named(nick_cmd()), seq![nick@], false),
                CommandModel::Named(user_cmd()),
                seq![username@, user_mode_args(), realname@],
                true,
            ),
            final(self).host == old(self).host,
            final(self).wf(),
    {
        let nb = nick_bytes();
        let mut nick_args: Vec<Vec<u8>> = Vec::new();
        nick_args.push(slice_to_vec(nick));
        proof {
            assert(views_of(nick_args@) =~= seq![nick@]);
        }
        self.send_command(Command::IRCCmd(nb), &nick_args, false);
        let ub = user_bytes();
        let mut user_args: Vec<Vec<u8>> = Vec::new();
        user_args.push(slice_to_vec(username));
        user_args.push(user_mode_bytes());
        user_args.push(slice_to_vec(realname));
        proof {
            assert(views_of(user_args@) =~= seq![username@, user_mode_args(), realname@]);
        }
        self.send_command(Command::IRCCmd(ub), &user_args, true);
    }
}

} // verus!

//! The wire format, as specification functions: how a Line renders to bytes
//! and how bytes parse back into a Line, including the CTCP span embedded in
//! PRIVMSG/NOTICE payloads, plus the rendering used by the send API.

use vstd::prelude::*;

use crate::SPACE;
use crate::COLON;
use crate::CTCP_MARK;
use crate::CR;
use crate::LF;
use crate::find_byte;
use crate::conn::CommandModel;
use crate::conn::LineModel;
use crate::names::privmsg_cmd;
use crate::names::notice_cmd;
use crate::names::action_verb;
use crate::names::privmsg_bytes;
use crate::names::notice_bytes;
use crate::names::action_bytes;
use crate::conn::Line;
use crate::conn::Command;
use crate::User;
use crate::lemma_find_byte;
use crate::util::sub_vec;
use crate::util::append_slice;
use crate::util::bytes_eq;
use crate::util::find_byte_at;
use crate::util::views_of;

verus! {

broadcast use crate::util::lemma_views_of_push;

/// An ASCII decimal digit.
pub open spec fn is_digit(b: u8) -> bool {
    48 <= b <= 57
}

/// An ASCII letter.
pub open spec fn is_alpha(b: u8) -> bool {
    (65 <= b <= 90) || (97 <= b <= 122)
}

/// Every byte is an ASCII decimal digit.
pub open spec fn all_digits(s: Seq<u8>) -> bool {
    forall|i: int| 0 <= i < s.len() ==> is_digit(#[trigger] s[i])
}

/// Every byte is an ASCII letter.
pub open spec fn all_alpha(s: Seq<u8>) -> bool {
    forall|i: int| 0 <= i < s.len() ==> is_alpha(#[trigger] s[i])
}

/// The numeric value of a 3-digit code token.
pub open spec fn code_val(s: Seq<u8>) -> int
    recommends
        s.len() == 3,
{
    100 * (s[0] - 48) + 10 * (s[1] - 48) + (s[2] - 48)
}

/// A numeric code as exactly three zero-padded decimal digits.
pub open spec fn code3(c: int) -> Seq<u8> {
    seq![(48 + c / 100) as u8, (48 + (c / 10) % 10) as u8, (48 + c % 10) as u8]
}

/// Arguments each preceded by one space.
pub open spec fn sp_join(args: Seq<Seq<u8>>) -> Seq<u8>
    decreases args.len(),
{
    if args.len() == 0 {
        Seq::empty()
    } else {
        seq![SPACE] + args[0] + sp_join(args.skip(1))
    }
}

/// `sp_join` distributes over concatenation.
pub proof fn lemma_sp_join_concat(a: Seq<Seq<u8>>, b: Seq<Seq<u8>>)
    ensures
        sp_join(a + b) == sp_join(a) + sp_join(b),
    decreases a.len(),
{
    if a.len() == 0 {
        assert(a + b =~= b);
        assert(sp_join(a) + sp_join(b) =~= sp_join(b));
    } else {
        assert((a + b).skip(1) =~= a.skip(1) + b);
        lemma_sp_join_concat(a.skip(1), b);
        assert(sp_join(a + b) =~= sp_join(a) + sp_join(b));
    }
}

/// One argument appended to a space-joined list.
pub proof fn lemma_sp_join_snoc(args: Seq<Seq<u8>>, i: int)
    requires
        0 <= i < args.len(),
    ensures
        sp_join(args.take(i + 1)) == sp_join(args.take(i)) + seq![SPACE] + args[i],
{
    assert(args.take(i + 1) =~= args.take(i) + seq![args[i]]);
    lemma_sp_join_concat(args.take(i), seq![args[i]]);
    let single = seq![args[i]];
    assert(single.skip(1) =~= Seq::<Seq<u8>>::empty());
    assert(sp_join(single.skip(1)) =~= Seq::<u8>::empty());
    assert(sp_join(single) =~= seq![SPACE] + args[i]);
    assert(sp_join(args.take(i + 1)) =~= sp_join(args.take(i)) + seq![SPACE] + args[i]);
}

/// A trailing argument is colon-prefixed on the wire when it is empty or
/// contains a space.
pub open spec fn needs_colon(last: Seq<u8>) -> bool {
    last.len() == 0 || find_byte(last, SPACE) is Some
}

/// The wire tail for a non-CTCP argument list: every argument but the last
/// preceded by a space, the last preceded by a space and an optional colon.
pub open spec fn args_tail(args: Seq<Seq<u8>>, colon: bool) -> Seq<u8> {
    if args.len() == 0 {
        Seq::empty()
    } else {
        sp_join(args.drop_last()) + seq![SPACE] + (if colon {
            seq![COLON]
        } else {
            Seq::empty()
        }) + args.last()
    }
}

/// The serializer's argument tail: the colon appears exactly where the
/// trailing argument needs it.
pub open spec fn args_wire(args: Seq<Seq<u8>>) -> Seq<u8> {
    args_tail(args, args.len() > 0 && needs_colon(args.last()))
}

/// The head of a CTCP rendering: `cmd dst :\x01verb`.
pub open spec fn ctcp_header(cmd: Seq<u8>, dst: Seq<u8>, verb: Seq<u8>) -> Seq<u8> {
    cmd + seq![SPACE] + dst + seq![SPACE, COLON, CTCP_MARK] + verb
}

/// The serializer's rendering of a command, up to the arguments. Numeric
/// codes render as exactly three zero-padded digits.
pub open spec fn command_wire(c: CommandModel) -> Seq<u8> {
    match c {
        CommandModel::Named(s) => s,
        CommandModel::Code(n) => code3(n),
        CommandModel::Action(dst) => ctcp_header(privmsg_cmd(), dst, action_verb()),
        CommandModel::Ctcp(verb, dst) => ctcp_header(privmsg_cmd(), dst, verb),
        CommandModel::CtcpReply(verb, dst) => ctcp_header(notice_cmd(), dst, verb),
    }
}

/// The full wire rendering of a Line: optional `:prefix `, the command, and
/// the arguments — space-joined inside a 0x01-terminated span for CTCP,
/// with the trailing-colon rule otherwise.
pub open spec fn spec_to_raw(l: LineModel) -> Seq<u8> {
    (match l.prefix {
        Some(p) => seq![COLON] + p + seq![SPACE],
        None => Seq::empty(),
    }) + command_wire(l.command) + (if l.command.is_ctcp() {
        sp_join(l.args) + seq![CTCP_MARK]
    } else {
        args_wire(l.args)
    })
}

/// What `send_command` renders before truncation: the command as the codec
/// renders it — numeric codes as exactly three zero-padded digits — the
/// arguments joined by single spaces with the colon only where the caller
/// asked for one, and the closing 0x01 for CTCP variants.
pub open spec fn render_command(c: CommandModel, args: Seq<Seq<u8>>, add_colon: bool) -> Seq<u8> {
    command_wire(c) + args_tail(args, add_colon) + (if c.is_ctcp() {
        seq![CTCP_MARK]
    } else {
        Seq::empty()
    })
}

/// A payload cut to at most 510 bytes — a raw byte-count cut — with CRLF
/// appended: never more than 512 bytes in all.
pub open spec fn wire_frame(payload: Seq<u8>) -> Seq<u8> {
    (if payload.len() > 510 {
        payload.take(510)
    } else {
        payload
    }) + seq![CR, LF]
}

/// Splitting the rest of a line into arguments: single spaces separate
/// middles, and a leading colon makes the rest one trailing argument.
pub open spec fn parse_args(v: Seq<u8>) -> Seq<Seq<u8>>
    decreases v.len(),
{
    if v.len() == 0 {
        seq![]
    } else if v[0] == COLON {
        seq![v.skip(1)]
    } else {
        match find_byte(v, SPACE) {
            None => seq![v],
            // a found space is always in range; the bound is restated here
            // for the termination measure
            Some(i) => if 0 <= i && i < v.len() {
                seq![v.take(i)] + parse_args(v.skip(i + 1))
            } else {
                seq![v]
            },
        }
    }
}

/// The CTCP span with its 0x01 marks removed: a trailing mark is stripped
/// when present and tolerated when absent.
pub open spec fn ctcp_strip(text: Seq<u8>) -> Seq<u8> {
    if text.len() > 1 && text.last() == CTCP_MARK {
        text.subrange(1, text.len() - 1)
    } else {
        text.skip(1)
    }
}

/// A CTCP span split on the first space into the verb and the remaining
/// argument list.
pub open spec fn ctcp_split(text: Seq<u8>) -> (Seq<u8>, Seq<Seq<u8>>) {
    match find_byte(text, SPACE) {
        Some(i) => (text.take(i), seq![text.skip(i + 1)]),
        None => (text, seq![]),
    }
}

/// The CTCP rewrite: the last argument carries the span, the first argument
/// is the destination, and the verb decides the variant.
pub open spec fn apply_ctcp(privmsg: bool, args: Seq<Seq<u8>>) -> (CommandModel, Seq<Seq<u8>>) {
    let text = ctcp_strip(args.last());
    let dst = args[0];
    let (verb, newargs) = ctcp_split(text);
    let cmd = if privmsg {
        if verb == action_verb() {
            CommandModel::Action(dst)
        } else {
            CommandModel::Ctcp(verb, dst)
        }
    } else {
        CommandModel::CtcpReply(verb, dst)
    };
    (cmd, newargs)
}

/// Parsing after the prefix has been taken: the token up to the first space
/// is the command — exactly three digits make a numeric code, letters make
/// a named command, an empty token before a space or anything else fails —
/// and the rest splits into arguments, with the CTCP rewrite applied when a
/// PRIVMSG or NOTICE of two or more arguments carries a 0x01 span last.
pub open spec fn parse_after_prefix(prefix: Option<Seq<u8>>, v: Seq<u8>) -> Option<LineModel> {
    if find_byte(v, SPACE) == Some(0int) {
        None
    } else {
        let cmd = match find_byte(v, SPACE) {
            None => v,
            Some(i) => v.take(i),
        };
        let rest = match find_byte(v, SPACE) {
            None => Seq::<u8>::empty(),
            Some(i) => v.skip(i + 1),
        };
        if cmd.len() == 3 && all_digits(cmd) {
            Some(LineModel { prefix, command: CommandModel::Code(code_val(cmd)), args: parse_args(rest) })
        } else if all_alpha(cmd) {
            let args = parse_args(rest);
            let privmsg = cmd == privmsg_cmd();
            let check = privmsg || cmd == notice_cmd();
            if check && args.len() >= 2 && args.last().len() > 0 && args.last()[0] == CTCP_MARK {
                let (c, a) = apply_ctcp(privmsg, args);
                Some(LineModel { prefix, command: c, args: a })
            } else {
                Some(LineModel { prefix, command: CommandModel::Named(cmd), args })
            }
        } else {
            None
        }
    }
}

/// Whether a byte is an ASCII decimal digit.
fn is_digit_b(b: u8) -> (r: bool)
    ensures
        r == is_digit(b),
{
    48 <= b && b <= 57
}

/// Whether a byte is an ASCII letter.
fn is_alpha_b(b: u8) -> (r: bool)
    ensures
        r == is_alpha(b),
{
    (65 <= b && b <= 90) || (97 <= b && b <= 122)
}

/// Whether `v[from..to]` is all ASCII letters.
fn scan_alpha(v: &[u8], from: usize, to: usize) -> (r: bool)
    requires
        from <= to <= v@.len(),
    ensures
        r == all_alpha(v@.subrange(from as int, to as int)),
{
    let ghost cmdm = v@.subrange(from as int, to as int);
    let mut j = from;
    while j < to
        invariant
            from <= j <= to <= v@.len(),
            cmdm == v@.subrange(from as int, to as int),
            forall|k: int| from <= k < j ==> is_alpha(#[trigger] v@[k]),
        decreases to - j,
    {
        if !is_alpha_b(v[j]) {
            proof {
                assert(cmdm[j - from] == v@[j as int]);
            }
            return false;
        }
        j += 1;
    }
    proof {
        assert forall|k: int| 0 <= k < cmdm.len() implies is_alpha(cmdm[k]) by {
            assert(cmdm[k] == v@[from + k]);
        }
    }
    true
}

/// Split `v[start..]` into arguments: middles up to single spaces, and a
/// leading colon making the rest one trailing argument.
fn split_args(v: &[u8], start: usize) -> (args: Vec<Vec<u8>>)
    requires
        start <= v@.len(),
    ensures
        views_of(args@) == parse_args(v@.skip(start as int)),
{
    let ghost s = v@;
    let ghost restm = s.skip(start as int);
    let mut args: Vec<Vec<u8>> = Vec::new();
    let mut p = start;
    proof {
        assert(views_of(args@) =~= Seq::<Seq<u8>>::empty());
        assert(parse_args(restm) =~= views_of(args@) + parse_args(s.skip(p as int)));
    }
    while p < v.len()
        invariant
            p <= v@.len(),
            s == v@,
            restm == s.skip(start as int),
            parse_args(restm) == views_of(args@) + parse_args(s.skip(p as int)),
        decreases v@.len() - p,
    {
        let ghost cur = s.skip(p as int);
        let ghost before = views_of(args@);
        if v[p] == COLON {
            args.push(sub_vec(v, p + 1, v.len()));
            proof {
                assert(cur[0] == COLON);
                assert(cur.skip(1) =~= s.subrange(p + 1, s.len() as int));
                assert(parse_args(cur) == seq![cur.skip(1)]);
                assert(s.skip(s.len() as int) =~= Seq::<u8>::empty());
                assert(parse_args(s.skip(s.len() as int)) =~= Seq::<Seq<u8>>::empty());
                assert(views_of(args@) + parse_args(s.skip(s.len() as int)) =~= before
                    + parse_args(cur));
            }
            p = v.len();
        } else {
            match find_byte_at(v, p, SPACE) {
                None => {
                    proof {
                        lemma_find_byte(cur, SPACE);
                    }
                    args.push(sub_vec(v, p, v.len()));
                    proof {
                        assert(cur =~= s.subrange(p as int, s.len() as int));
                        assert(parse_args(cur) == seq![cur]);
                        assert(s.skip(s.len() as int) =~= Seq::<u8>::empty());
                        assert(parse_args(s.skip(s.len() as int)) =~= Seq::<Seq<u8>>::empty());
                        assert(views_of(args@) + parse_args(s.skip(s.len() as int)) =~= before
                            + parse_args(cur));
                    }
                    p = v.len();
                },
                Some(isp) => {
                    proof {
                        lemma_find_byte(cur, SPACE);
                    }
                    args.push(sub_vec(v, p, isp));
                    proof {
                        let k = isp - p;
                        assert(find_byte(cur, SPACE) == Some(k));
                        assert(cur.take(k) =~= s.subrange(p as int, isp as int));
                        assert(cur.skip(k + 1) =~= s.skip(isp + 1));
                        assert(parse_args(cur) == seq![cur.take(k)] + parse_args(cur.skip(k + 1)));
                        assert(views_of(args@) + parse_args(s.skip(isp + 1)) =~= before
                            + parse_args(cur));
                    }
                    p = isp + 1;
                },
            }
        }
    }
    proof {
        assert(s.skip(v@.len() as int).len() == 0);
        assert(parse_args(s.skip(v@.len() as int)) =~= Seq::<Seq<u8>>::empty());
        assert(views_of(args@) =~= parse_args(restm));
    }
    args
}

impl Line {
    /// Parse one wire line. A leading `:` introduces the prefix, the next
    /// token is the command — three digits a numeric code, letters a named
    /// command, anything else a failure — the rest splits into arguments on
    /// single spaces with `:` introducing the trailing argument, and a 0x01
    /// span in the last of two or more PRIVMSG/NOTICE arguments becomes the
    /// CTCP variant.
    #[verifier::rlimit(100)]
    pub fn parse(v: &[u8]) -> (r: Option<Line>)
        ensures
            match spec_parse(v@) {
                None => r is None,
                Some(m) => match r {
                    Some(l) => l@ == m && l.wf(),
                    None => false,
                },
            },
    {
        let ghost s = v@;
        proof {
            assert(s.skip(0) =~= s);
        }
        let mut prefix: Option<User> = None;
        let mut pos: usize = 0;
        if v.len() > 0 && v[0] == COLON {
            match find_byte_at(v, 0, SPACE) {
                None => {
                    return None;
                },
                Some(idx) => {
                    proof {
                        lemma_find_byte(s, SPACE);
                    }
                    prefix = Some(User::parse(sub_vec(v, 1, idx)));
                    pos = idx + 1;
                },
            }
        }
        let ghost pm = match &prefix {
            Some(u) => Some(u@),
            None => None::<Seq<u8>>,
        };
        let ghost w = s.skip(pos as int);
        proof {
            assert(spec_parse(s) == parse_after_prefix(pm, w));
        }
        // the command token runs to the first space, or to the end
        let sp = find_byte_at(v, pos, SPACE);
        proof {
            lemma_find_byte(w, SPACE);
        }
        let cmd_end: usize;
        let rest_start: usize;
        match sp {
            None => {
                cmd_end = v.len();
                rest_start = v.len();
            },
            Some(i) => {
                if i == pos {
                    // an empty command token: a leading space
                    return None;
                }
                cmd_end = i;
                rest_start = i + 1;
            },
        }
        let ghost cmdm = match find_byte(w, SPACE) {
            None => w,
            Some(k) => w.take(k),
        };
        let ghost restm = match find_byte(w, SPACE) {
            None => Seq::<u8>::empty(),
            Some(k) => w.skip(k + 1),
        };
        proof {
            assert(cmdm =~= s.subrange(pos as int, cmd_end as int));
            assert(restm =~= s.skip(rest_start as int));
        }
        let cmd_len = cmd_end - pos;
        let command: Command;
        let mut is_privmsg = false;
        let mut check_ctcp = false;
        let three = cmd_len == 3;
        let digits = three && is_digit_b(v[pos]) && is_digit_b(v[pos + 1]) && is_digit_b(
            v[pos + 2],
        );
        if digits {
            proof {
                assert(cmdm[0] == v@[pos as int]);
                assert(cmdm[1] == v@[pos as int + 1]);
                assert(cmdm[2] == v@[pos as int + 2]);
                assert forall|j: int| 0 <= j < cmdm.len() implies is_digit(cmdm[j]) by {
                    if j == 0 {
                    } else if j == 1 {
                    } else {
                        assert(j == 2);
                    }
                }
            }
            let code: u32 = 100 * ((v[pos] - 48) as u32) + 10 * ((v[pos + 1] - 48) as u32) + ((v[
                pos + 2] - 48) as u32);
            proof {
                assert(code == code_val(cmdm));
            }
            command = Command::IRCCode(code);
        } else {
            proof {
                if cmd_len == 3 {
                    assert(cmdm[0] == v@[pos as int]);
                    assert(cmdm[1] == v@[pos as int + 1]);
                    assert(cmdm[2] == v@[pos as int + 2]);
                    assert(!all_digits(cmdm));
                }
            }
            if !scan_alpha(v, pos, cmd_end) {
                return None;
            }
            let cmdvec = sub_vec(v, pos, cmd_end);
            let p_name = privmsg_bytes();
            let n_name = notice_bytes();
            is_privmsg = bytes_eq(cmdvec.as_slice(), p_name.as_slice());
            let is_notice = bytes_eq(cmdvec.as_slice(), n_name.as_slice());
            check_ctcp = is_privmsg || is_notice;
            command = Command::IRCCmd(cmdvec);
        }
        // split the rest into arguments
        let mut args: Vec<Vec<u8>> = split_args(v, rest_start);
        let ghost argv = parse_args(restm);
        // the CTCP rewrite
        if check_ctcp && args.len() >= 2 {
            let nlast = args.len() - 1;
            if args[nlast].len() > 0 && args[nlast][0] == CTCP_MARK {
                let text = args.pop().unwrap();
                proof {
                    assert(text@ == argv.last());
                }
                let stripped = if text.len() > 1 && text[text.len() - 1] == CTCP_MARK {
                    sub_vec(text.as_slice(), 1, text.len() - 1)
                } else {
                    sub_vec(text.as_slice(), 1, text.len())
                };
                proof {
                    assert(text@.skip(1) =~= text@.subrange(1, text@.len() as int));
                    assert(stripped@ == ctcp_strip(argv.last()));
                }
                let dst = sub_vec(args[0].as_slice(), 0, args[0].len());
                proof {
                    assert(args@[0]@ =~= dst@);
                    assert(dst@ =~= argv[0]);
                }
                let verb: Vec<u8>;
                let mut newargs: Vec<Vec<u8>> = Vec::new();
                let split = find_byte_at(stripped.as_slice(), 0, SPACE);
                proof {
                    assert(stripped@.skip(0) =~= stripped@);
                    lemma_find_byte(stripped@, SPACE);
                }
                match split {
                    Some(isp) => {
                        verb = sub_vec(stripped.as_slice(), 0, isp);
                        newargs.push(sub_vec(stripped.as_slice(), isp + 1, stripped.len()));
                        proof {
                            assert(verb@ =~= stripped@.take(isp as int));
                            assert(views_of(newargs@) =~= seq![stripped@.skip(isp + 1)]);
                        }
                    },
                    None => {
                        verb = stripped;
                        proof {
                            assert(views_of(newargs@) =~= Seq::<Seq<u8>>::empty());
                        }
                    },
                }
                let ghost split_spec = ctcp_split(ctcp_strip(argv.last()));
                proof {
                    assert(verb@ == split_spec.0);
                    assert(views_of(newargs@) =~= split_spec.1);
                }
                let a_name = action_bytes();
                let command2 = if is_privmsg {
                    if bytes_eq(verb.as_slice(), a_name.as_slice()) {
                        Command::IRCAction(dst)
                    } else {
                        Command::IRCCTCP(verb, dst)
                    }
                } else {
                    Command::IRCCTCPReply(verb, dst)
                };
                let line = Line { prefix, command: command2, args: newargs };
                proof {
                    let ghost expect = apply_ctcp(is_privmsg, argv);
                    assert(line@.command =~~= expect.0);
                    assert(line@.args =~~= expect.1);
                    assert(parse_after_prefix(pm, w) is Some);
                    assert(line@ =~~= parse_after_prefix(pm, w).unwrap());
                }
                return Some(line);
            }
        }
        let line = Line { prefix, command, args };
        proof {
            assert(parse_after_prefix(pm, w) is Some);
            assert(line@ =~~= parse_after_prefix(pm, w).unwrap());
        }
        Some(line)
    }

    /// The wire rendering `[:prefix ]command[ args]`: the inverse of `parse`.
    /// Numeric codes render as exactly three zero-padded digits; CTCP
    /// variants render their arguments space-joined inside the 0x01 span;
    /// otherwise the trailing argument is colon-prefixed exactly when it is
    /// empty or contains a space.
    #[verifier::rlimit(100)]
    pub fn to_raw(&self) -> (r: Vec<u8>)
        requires
            self.wf(),
        ensures
            r@ == spec_to_raw(self@),
    {
        let mut res: Vec<u8> = Vec::new();
        match &self.prefix {
            Some(u) => {
                res.push(COLON);
                append_slice(&mut res, u.raw());
                res.push(SPACE);
            },
            None => (),
        }
        let ghost head = res@;
        proof {
            assert(head =~= (match self@.prefix {
                Some(p) => seq![COLON] + p + seq![SPACE],
                None => Seq::<u8>::empty(),
            }));
        }
        match &self.command {
            Command::IRCCmd(cmd) => {
                append_slice(&mut res, cmd.as_slice());
            },
            Command::IRCCode(c) => {
                let c = *c;
                res.push((48 + c / 100) as u8);
                res.push((48 + (c / 10) % 10) as u8);
                res.push((48 + c % 10) as u8);
                proof {
                    assert(res@ =~= head + code3(c as int));
                }
            },
            Command::IRCAction(dst) => {
                let name = privmsg_bytes();
                append_slice(&mut res, name.as_slice());
                res.push(SPACE);
                append_slice(&mut res, dst.as_slice());
                res.push(SPACE);
                res.push(COLON);
                res.push(CTCP_MARK);
                let verb = action_bytes();
                append_slice(&mut res, verb.as_slice());
                proof {
                    assert(res@ =~= head + ctcp_header(privmsg_cmd(), dst@, action_verb()));
                }
            },
            Command::IRCCTCP(verb, dst) => {
                let name = privmsg_bytes();
                append_slice(&mut res, name.as_slice());
                res.push(SPACE);
                append_slice(&mut res, dst.as_slice());
                res.push(SPACE);
                res.push(COLON);
                res.push(CTCP_MARK);
                append_slice(&mut res, verb.as_slice());
                proof {
                    assert(res@ =~= head + ctcp_header(privmsg_cmd(), dst@, verb@));
                }
            },
            Command::IRCCTCPReply(verb, dst) => {
                let name = notice_bytes();
                append_slice(&mut res, name.as_slice());
                res.push(SPACE);
                append_slice(&mut res, dst.as_slice());
                res.push(SPACE);
                res.push(COLON);
                res.push(CTCP_MARK);
                append_slice(&mut res, verb.as_slice());
                proof {
                    assert(res@ =~= head + ctcp_header(notice_cmd(), dst@, verb@));
                }
            },
        }
        let ghost base = res@;
        let ghost argv = views_of(self.args@);
        proof {
            assert(base =~= head + command_wire(self@.command));
        }
        if self.command.is_ctcp() {
            let n = self.args.len();
            let mut i: usize = 0;
            proof {
                assert(argv.take(0) =~= Seq::<Seq<u8>>::empty());
                assert(res@ =~= base + sp_join(argv.take(0)));
            }
            while i < n
                invariant
                    i <= n,
                    n == self.args@.len(),
                    argv == views_of(self.args@),
                    res@ == base + sp_join(argv.take(i as int)),
                decreases n - i,
            {
                res.push(SPACE);
                append_slice(&mut res, self.args[i].as_slice());
                proof {
                    lemma_sp_join_snoc(argv, i as int);
                    assert(argv[i as int] == self.args@[i as int]@);
                    assert(res@ =~= base + sp_join(argv.take(i + 1)));
                }
                i += 1;
            }
            res.push(CTCP_MARK);
            proof {
                assert(argv.take(n as int) =~= argv);
                assert(res@ =~= spec_to_raw(self@));
            }
        } else if self.args.len() > 0 {
            let n = self.args.len();
            let mut i: usize = 0;
            proof {
                assert(argv.take(0) =~= Seq::<Seq<u8>>::empty());
                assert(res@ =~= base + sp_join(argv.take(0)));
            }
            while i < n - 1
                invariant
                    n >= 1,
                    i <= n - 1,
                    n == self.args@.len(),
                    argv == views_of(self.args@),
                    res@ == base + sp_join(argv.take(i as int)),
                decreases n - i,
            {
                res.push(SPACE);
                append_slice(&mut res, self.args[i].as_slice());
                proof {
                    lemma_sp_join_snoc(argv, i as int);
                    assert(argv[i as int] == self.args@[i as int]@);
                    assert(res@ =~= base + sp_join(argv.take(i + 1)));
                }
                i += 1;
            }
            proof {
                assert(argv.take(n - 1) =~= argv.drop_last());
            }
            res.push(SPACE);
            let last = &self.args[n - 1];
            let colon = last.len() == 0 || find_byte_at(last.as_slice(), 0, SPACE).is_some();
            proof {
                assert(last@.skip(0) =~= last@);
                assert(argv.last() == last@);
                assert(colon == needs_colon(argv.last()));
            }
            if colon {
                res.push(COLON);
            }
            append_slice(&mut res, last.as_slice());
            proof {
                assert(res@ =~= spec_to_raw(self@));
            }
        } else {
            proof {
                assert(argv.len() == 0);
                assert(res@ =~= spec_to_raw(self@));
            }
        }
        res
    }
}

/// Parsing a whole line: a leading colon introduces a prefix running to the
/// first space — no space after it is a parse failure — and the rest parses
/// as command and arguments.
pub open spec fn spec_parse(s: Seq<u8>) -> Option<LineModel> {
    if s.len() > 0 && s[0] == COLON {
        match find_byte(s, SPACE) {
            None => None,
            Some(i) => parse_after_prefix(Some(s.subrange(1, i)), s.skip(i + 1)),
        }
    } else {
        parse_after_prefix(None, s)
    }
}

} // verus!

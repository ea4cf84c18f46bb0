//! The library's laws, stated and proved over the specification model: the
//! codec round-trip, the frame-size cap of the send API, the login gate,
//! and the progress of nick-collision recovery.

use vstd::prelude::*;

use crate::SPACE;
use crate::COLON;
use crate::CTCP_MARK;
use crate::UNDERSCORE;
use crate::find_byte;
use crate::lemma_find_byte;
use crate::lemma_find_byte_is;
use crate::lemma_find_byte_none;
use crate::conn::CommandModel;
use crate::conn::LineModel;
use crate::conn::ConnModel;
use crate::conn::frame_wf;
use crate::conn::spec_send_command;
use crate::conn::spec_send_raw;
use crate::conn::spec_chomp;
use crate::handlers::spec_handle_line;
use crate::handlers::spec_munge;
use crate::handlers::last_non_us;
use crate::handlers::lemma_last_non_us;
use crate::handlers::spec_bad_nick;
use crate::codec::args_tail;
use crate::names::nick_cmd;
use crate::names::quit_cmd;
use crate::nick_of;
use crate::user_of;
use crate::host_of;
use crate::raw_of;
use crate::codec::spec_parse;
use crate::codec::spec_to_raw;
use crate::codec::parse_after_prefix;
use crate::codec::parse_args;
use crate::codec::args_wire;
use crate::codec::sp_join;
use crate::codec::lemma_sp_join_concat;
use crate::codec::needs_colon;
use crate::codec::command_wire;
use crate::codec::wire_frame;
use crate::codec::render_command;
use crate::codec::ctcp_header;
use crate::codec::ctcp_strip;
use crate::codec::ctcp_split;
use crate::codec::code3;
use crate::codec::code_val;
use crate::codec::is_digit;
use crate::codec::is_alpha;
use crate::codec::all_digits;
use crate::codec::all_alpha;
use crate::names::privmsg_cmd;
use crate::names::notice_cmd;
use crate::names::action_verb;

verus! {

/// No byte of `s` is a space.
pub open spec fn space_free(s: Seq<u8>) -> bool {
    forall|i: int| 0 <= i < s.len() ==> s[i] != SPACE
}

/// An argument that can stand anywhere but last: no space, and no leading
/// colon.
pub open spec fn middle_arg_ok(a: Seq<u8>) -> bool {
    space_free(a) && (a.len() == 0 || a[0] != COLON)
}

/// A trailing argument survives the round trip when the serializer
/// colon-prefixes it, or when it does not itself start with a colon.
pub open spec fn last_arg_ok(a: Seq<u8>) -> bool {
    needs_colon(a) || a[0] != COLON
}

/// A non-CTCP argument list that survives the round trip: middles carry no
/// space and no leading colon, and the trailing argument is unambiguous.
pub open spec fn plain_args_ok(args: Seq<Seq<u8>>) -> bool {
    &&& forall|i: int| 0 <= i < args.len() - 1 ==> middle_arg_ok(#[trigger] args[i])
    &&& args.len() > 0 ==> last_arg_ok(args.last())
}

/// A named command that survives the round trip: letters only, nonempty
/// unless there are no arguments, and not a PRIVMSG/NOTICE whose last of two
/// or more arguments would look like a CTCP span.
pub open spec fn named_cmd_ok(cmd: Seq<u8>, args: Seq<Seq<u8>>) -> bool {
    &&& all_alpha(cmd)
    &&& (cmd.len() > 0 || args.len() == 0)
    &&& ((cmd == privmsg_cmd() || cmd == notice_cmd()) && args.len() >= 2 ==> !(
    args.last().len() > 0 && args.last()[0] == CTCP_MARK))
}

/// The lines whose rendering parses back to the very same line: the prefix
/// carries no space; a named command is alphabetic and unambiguous; a code
/// has three digits; a CTCP destination carries no space and no leading
/// colon, its verb no space, and at most one argument follows (the parser
/// always folds the CTCP text into at most one).
pub open spec fn roundtrip_ok(l: LineModel) -> bool {
    &&& match l.prefix {
        Some(p) => space_free(p),
        None => true,
    }
    &&& match l.command {
        CommandModel::Named(cmd) => named_cmd_ok(cmd, l.args) && plain_args_ok(l.args),
        CommandModel::Code(n) => 0 <= n < 1000 && plain_args_ok(l.args),
        CommandModel::Action(dst) => middle_arg_ok(dst) && l.args.len() <= 1,
        CommandModel::Ctcp(verb, dst) => middle_arg_ok(dst) && space_free(verb) && verb
            != action_verb() && l.args.len() <= 1,
        CommandModel::CtcpReply(verb, dst) => middle_arg_ok(dst) && space_free(verb)
            && l.args.len() <= 1,
    }
}

/// The protocol words are alphabetic, of known lengths, and distinct.
pub proof fn lemma_protocol_words()
    ensures
        all_alpha(privmsg_cmd()),
        all_alpha(notice_cmd()),
        all_alpha(action_verb()),
        space_free(privmsg_cmd()),
        space_free(notice_cmd()),
        space_free(action_verb()),
        privmsg_cmd().len() == 7,
        notice_cmd().len() == 6,
        action_verb().len() == 6,
        privmsg_cmd() != notice_cmd(),
{
    assert forall|i: int| 0 <= i < privmsg_cmd().len() implies is_alpha(#[trigger] privmsg_cmd()[i])
        by {
        let s = privmsg_cmd();
        if i == 0 {
            assert(s[0] == 80);
        } else if i == 1 {
            assert(s[1] == 82);
        } else if i == 2 {
            assert(s[2] == 73);
        } else if i == 3 {
            assert(s[3] == 86);
        } else if i == 4 {
            assert(s[4] == 77);
        } else if i == 5 {
            assert(s[5] == 83);
        } else {
            assert(s[6] == 71);
        }
    }
    assert forall|i: int| 0 <= i < notice_cmd().len() implies is_alpha(#[trigger] notice_cmd()[i])
        by {
        let s = notice_cmd();
        if i == 0 {
            assert(s[0] == 78);
        } else if i == 1 {
            assert(s[1] == 79);
        } else if i == 2 {
            assert(s[2] == 84);
        } else if i == 3 {
            assert(s[3] == 73);
        } else if i == 4 {
            assert(s[4] == 67);
        } else {
            assert(s[5] == 69);
        }
    }
    assert forall|i: int| 0 <= i < action_verb().len() implies is_alpha(#[trigger] action_verb()[i])
        by {
        let s = action_verb();
        if i == 0 {
            assert(s[0] == 65);
        } else if i == 1 {
            assert(s[1] == 67);
        } else if i == 2 {
            assert(s[2] == 84);
        } else if i == 3 {
            assert(s[3] == 73);
        } else if i == 4 {
            assert(s[4] == 79);
        } else {
            assert(s[5] == 78);
        }
    }
}

/// Letters are not spaces, digits, or colons.
pub proof fn lemma_alpha_consequences(s: Seq<u8>)
    requires
        all_alpha(s),
    ensures
        space_free(s),
        s.len() > 0 ==> s[0] != COLON,
        s.len() > 0 ==> !all_digits(s),
{
    assert forall|i: int| 0 <= i < s.len() implies s[i] != SPACE by {
        assert(is_alpha(s[i]));
    }
    if s.len() > 0 {
        assert(is_alpha(s[0]));
    }
}

/// A three-digit rendering evaluates back to its value.
pub proof fn lemma_code3_val(n: int)
    requires
        0 <= n < 1000,
    ensures
        code3(n).len() == 3,
        all_digits(code3(n)),
        space_free(code3(n)),
        code3(n)[0] != COLON,
        code_val(code3(n)) == n,
{
    assert(n == 100 * (n / 100) + 10 * ((n / 10) % 10) + n % 10) by (nonlinear_arith)
        requires
            0 <= n < 1000,
    ;
    assert forall|i: int| 0 <= i < code3(n).len() implies is_digit(#[trigger] code3(n)[i]) by {
        let s = code3(n);
        if i == 0 {
            assert(s[0] == (48 + n / 100) as u8);
        } else if i == 1 {
            assert(s[1] == (48 + (n / 10) % 10) as u8);
        } else {
            assert(s[2] == (48 + n % 10) as u8);
        }
    }
    assert forall|i: int| 0 <= i < code3(n).len() implies code3(n)[i] != SPACE by {
        assert(is_digit(code3(n)[i]));
    }
}

/// Finding a byte after a clean prefix: the first occurrence in `a + b` is
/// the first occurrence in `b`, shifted.
pub proof fn lemma_find_byte_concat(a: Seq<u8>, b: Seq<u8>, c: u8)
    requires
        forall|i: int| 0 <= i < a.len() ==> a[i] != c,
    ensures
        find_byte(a + b, c) == (match find_byte(b, c) {
            None => None::<int>,
            Some(i) => Some(i + a.len()),
        }),
{
    lemma_find_byte(b, c);
    match find_byte(b, c) {
        Some(i) => {
            assert((a + b)[a.len() + i] == b[i]);
            assert forall|j: int| 0 <= j < a.len() + i implies (a + b)[j] != c by {
                if j < a.len() {
                    assert((a + b)[j] == a[j]);
                } else {
                    assert((a + b)[j] == b[j - a.len()]);
                }
            }
            lemma_find_byte_is(a + b, c, a.len() + i);
        },
        None => {
            assert forall|j: int| 0 <= j < (a + b).len() implies (a + b)[j] != c by {
                if j < a.len() {
                    assert((a + b)[j] == a[j]);
                } else {
                    assert((a + b)[j] == b[j - a.len()]);
                }
            }
            lemma_find_byte_none(a + b, c);
        },
    }
}

/// The wire tail of a nonempty argument list, written as a recursion over
/// the arguments, for the induction of the round-trip proof.
pub open spec fn args_body(args: Seq<Seq<u8>>) -> Seq<u8>
    decreases args.len(),
{
    if args.len() == 0 {
        Seq::empty()
    } else if args.len() == 1 {
        (if needs_colon(args[0]) {
            seq![COLON]
        } else {
            Seq::<u8>::empty()
        }) + args[0]
    } else {
        args[0] + seq![SPACE] + args_body(args.skip(1))
    }
}

/// The serializer's argument tail is one space and then the recursive body.
pub proof fn lemma_args_wire_body(args: Seq<Seq<u8>>)
    requires
        args.len() > 0,
    ensures
        args_wire(args) == seq![SPACE] + args_body(args),
    decreases args.len(),
{
    if args.len() == 1 {
        assert(args.drop_last() =~= Seq::<Seq<u8>>::empty());
        assert(sp_join(args.drop_last()) =~= Seq::<u8>::empty());
        assert(args[0] == args.last());
        assert(args_wire(args) =~= seq![SPACE] + args_body(args));
    } else {
        let rest = args.skip(1);
        lemma_args_wire_body(rest);
        assert(args.drop_last() =~= seq![args[0]] + rest.drop_last());
        lemma_sp_join_concat(seq![args[0]], rest.drop_last());
        assert(seq![args[0]].skip(1) =~= Seq::<Seq<u8>>::empty());
        assert(sp_join(seq![args[0]].skip(1)) =~= Seq::<u8>::empty());
        assert(sp_join(seq![args[0]]) =~= seq![SPACE] + args[0]);
        assert(rest.last() == args.last());
        assert(args_wire(args) =~= seq![SPACE] + args[0] + args_wire(rest));
        assert(args_wire(args) =~= seq![SPACE] + args_body(args));
    }
}

/// Parsing the recursive body of a well-formed argument list gives the list
/// back.
pub proof fn lemma_args_body_roundtrip(args: Seq<Seq<u8>>)
    requires
        args.len() > 0,
        plain_args_ok(args),
    ensures
        parse_args(args_body(args)) == args,
    decreases args.len(),
{
    if args.len() == 1 {
        let a = args[0];
        if needs_colon(a) {
            let v = seq![COLON] + a;
            assert(v[0] == COLON);
            assert(v.skip(1) =~= a);
            assert(parse_args(v) =~= args);
        } else {
            // not colon-prefixed: nonempty, no space, and no leading colon
            let v = args_body(args);
            assert(v =~= a);
            lemma_find_byte(a, SPACE);
            assert(find_byte(a, SPACE) is None);
            assert(a[0] != COLON);
            assert(parse_args(v) =~= args);
        }
    } else {
        let a = args[0];
        let rest = args.skip(1);
        assert(middle_arg_ok(a));
        assert forall|i: int| 0 <= i < rest.len() - 1 implies middle_arg_ok(#[trigger] rest[i]) by {
            assert(rest[i] == args[i + 1]);
        }
        assert(rest.last() == args.last());
        lemma_args_body_roundtrip(rest);
        let v = args_body(args);
        let tail = seq![SPACE] + args_body(rest);
        assert(v =~= a + tail);
        if a.len() == 0 {
            assert(v =~= tail);
            assert(v[0] == SPACE);
            assert(v[0] != COLON);
            lemma_find_byte_is(v, SPACE, 0);
            assert(v.take(0) =~= a);
            assert(v.skip(1) =~= args_body(rest));
            assert(parse_args(v) =~= seq![a] + parse_args(args_body(rest)));
            assert(seq![a] + rest =~= args);
        } else {
            assert(v[0] == a[0]);
            assert(a[0] != COLON);
            assert(tail[0] == SPACE);
            lemma_find_byte_is(tail, SPACE, 0);
            lemma_find_byte_concat(a, tail, SPACE);
            assert(find_byte(v, SPACE) == Some(a.len() as int));
            assert(v.take(a.len() as int) =~= a);
            assert(v.skip(a.len() as int + 1) =~= args_body(rest));
            assert(parse_args(v) =~= seq![a] + parse_args(args_body(rest)));
            assert(seq![a] + rest =~= args);
        }
    }
}

/// The rendering of a line after its prefix: the command and the arguments.
pub open spec fn rt_tail(l: LineModel) -> Seq<u8> {
    command_wire(l.command) + (if l.command.is_ctcp() {
        sp_join(l.args) + seq![CTCP_MARK]
    } else {
        args_wire(l.args)
    })
}

/// A space-free command token followed by the argument tail splits back into
/// the token and the arguments.
proof fn lemma_plain_tail(cmd: Seq<u8>, args: Seq<Seq<u8>>)
    requires
        space_free(cmd),
        cmd.len() > 0 || args.len() == 0,
        plain_args_ok(args),
    ensures
        ({
            let v = cmd + args_wire(args);
            &&& find_byte(v, SPACE) == (if args.len() == 0 {
                None::<int>
            } else {
                Some(cmd.len() as int)
            })
            &&& (args.len() == 0 ==> v == cmd)
            &&& (args.len() > 0 ==> v.take(cmd.len() as int) == cmd && parse_args(
                v.skip(cmd.len() as int + 1),
            ) == args)
        }),
{
    if args.len() == 0 {
        assert(args_wire(args) =~= Seq::<u8>::empty());
        assert(cmd + args_wire(args) =~= cmd);
        lemma_find_byte_none(cmd, SPACE);
    } else {
        lemma_args_wire_body(args);
        let b = seq![SPACE] + args_body(args);
        let v = cmd + args_wire(args);
        lemma_find_byte_is(b, SPACE, 0);
        lemma_find_byte_concat(cmd, b, SPACE);
        assert(v.take(cmd.len() as int) =~= cmd);
        assert(v.skip(cmd.len() as int + 1) =~= args_body(args));
        lemma_args_body_roundtrip(args);
    }
}

/// The body of a rendered CTCP line parses back into its pieces.
#[verifier::rlimit(100)]
proof fn lemma_ctcp_body(cmdname: Seq<u8>, verb: Seq<u8>, dst: Seq<u8>, args: Seq<Seq<u8>>)
    requires
        space_free(cmdname),
        cmdname.len() > 0,
        middle_arg_ok(dst),
        space_free(verb),
        args.len() <= 1,
    ensures
        ({
            let v = ctcp_header(cmdname, dst, verb) + sp_join(args) + seq![CTCP_MARK];
            let text = seq![CTCP_MARK] + verb + sp_join(args) + seq![CTCP_MARK];
            &&& find_byte(v, SPACE) == Some(cmdname.len() as int)
            &&& v.take(cmdname.len() as int) == cmdname
            &&& parse_args(v.skip(cmdname.len() as int + 1)) == seq![dst, text]
            &&& text.len() >= 2
            &&& text[0] == CTCP_MARK
            &&& ctcp_strip(text) == verb + sp_join(args)
            &&& ctcp_split(verb + sp_join(args)).0 == verb
            &&& ctcp_split(verb + sp_join(args)).1 == args
        }),
{
    let join = sp_join(args);
    let text = seq![CTCP_MARK] + verb + join + seq![CTCP_MARK];
    let colontail = seq![COLON] + text;
    let rest = dst + seq![SPACE, COLON, CTCP_MARK] + verb + join + seq![CTCP_MARK];
    let v = ctcp_header(cmdname, dst, verb) + join + seq![CTCP_MARK];
    assert(v =~= cmdname + (seq![SPACE] + rest));
    lemma_find_byte_is(seq![SPACE] + rest, SPACE, 0);
    lemma_find_byte_concat(cmdname, seq![SPACE] + rest, SPACE);
    assert(v.take(cmdname.len() as int) =~= cmdname);
    assert(v.skip(cmdname.len() as int + 1) =~= rest);
    // the arguments split into the destination and the CTCP text
    assert(colontail[0] == COLON);
    assert(colontail.skip(1) =~= text);
    assert(parse_args(colontail) =~= seq![text]);
    if dst.len() == 0 {
        assert(rest =~= seq![SPACE] + colontail);
        assert(rest[0] == SPACE);
        lemma_find_byte_is(rest, SPACE, 0);
        assert(rest.take(0) =~= dst);
        assert(rest.skip(1) =~= colontail);
        assert(parse_args(rest) =~= seq![dst, text]);
    } else {
        assert(rest =~= dst + (seq![SPACE] + colontail));
        assert(rest[0] == dst[0]);
        lemma_find_byte_is(seq![SPACE] + colontail, SPACE, 0);
        lemma_find_byte_concat(dst, seq![SPACE] + colontail, SPACE);
        assert(find_byte(rest, SPACE) == Some(dst.len() as int));
        assert(rest.take(dst.len() as int) =~= dst);
        assert(rest.skip(dst.len() as int + 1) =~= colontail);
        assert(parse_args(rest) =~= seq![dst, text]);
    }
    // stripping the marks leaves verb and arguments
    assert(text.last() == CTCP_MARK);
    assert(text.subrange(1, text.len() - 1) =~= verb + join);
    // the split on the first space recovers verb and arguments
    if args.len() == 0 {
        assert(join =~= Seq::<u8>::empty());
        let st = verb + join;
        assert(st =~= verb);
        lemma_find_byte_none(st, SPACE);
        assert(ctcp_split(st).1 =~= args);
    } else {
        assert(args.len() == 1);
        assert(args.skip(1) =~= Seq::<Seq<u8>>::empty());
        assert(sp_join(args.skip(1)) =~= Seq::<u8>::empty());
        assert(join =~= seq![SPACE] + args[0]);
        let st = verb + join;
        lemma_find_byte_is(join, SPACE, 0);
        lemma_find_byte_concat(verb, join, SPACE);
        assert(find_byte(st, SPACE) == Some(verb.len() as int));
        assert(st.take(verb.len() as int) =~= verb);
        assert(st.skip(verb.len() as int + 1) =~= args[0]);
        assert(ctcp_split(st).1 =~= args);
    }
}

/// The round trip for a named command.
proof fn lemma_rt_named(l: LineModel)
    requires
        roundtrip_ok(l),
        l.command is Named,
    ensures
        parse_after_prefix(l.prefix, rt_tail(l)) == Some(l),
{
    match l.command {
        CommandModel::Named(cmd) => {
            lemma_alpha_consequences(cmd);
            lemma_plain_tail(cmd, l.args);
            let v = rt_tail(l);
            assert(v =~= cmd + args_wire(l.args));
            if cmd.len() == 3 {
                assert(!all_digits(cmd));
            }
            if l.args.len() == 0 {
                assert(parse_args(Seq::<u8>::empty()) =~= Seq::<Seq<u8>>::empty());
                assert(l.args =~= Seq::<Seq<u8>>::empty());
                let got = parse_after_prefix(l.prefix, v);
                assert(got is Some);
                assert(got.unwrap() =~~= l);
            } else {
                let got = parse_after_prefix(l.prefix, v);
                assert(got is Some);
                assert(got.unwrap() =~~= l);
            }
        },
        _ => (),
    }
}

/// The round trip for a numeric code.
proof fn lemma_rt_code(l: LineModel)
    requires
        roundtrip_ok(l),
        l.command is Code,
    ensures
        parse_after_prefix(l.prefix, rt_tail(l)) == Some(l),
{
    match l.command {
        CommandModel::Code(n) => {
            lemma_code3_val(n);
            assert forall|i: int| 0 <= i < code3(n).len() implies code3(n)[i] != SPACE by {
                assert(is_digit(code3(n)[i]));
            }
            lemma_plain_tail(code3(n), l.args);
            let v = rt_tail(l);
            assert(v =~= code3(n) + args_wire(l.args));
            if l.args.len() == 0 {
                assert(parse_args(Seq::<u8>::empty()) =~= Seq::<Seq<u8>>::empty());
                assert(l.args =~= Seq::<Seq<u8>>::empty());
                let got = parse_after_prefix(l.prefix, v);
                assert(got is Some);
                assert(got.unwrap() =~~= l);
            } else {
                let got = parse_after_prefix(l.prefix, v);
                assert(got is Some);
                assert(got.unwrap() =~~= l);
            }
        },
        _ => (),
    }
}

/// The round trip for the CTCP variants.
proof fn lemma_rt_ctcp(l: LineModel)
    requires
        roundtrip_ok(l),
        l.command.is_ctcp(),
    ensures
        parse_after_prefix(l.prefix, rt_tail(l)) == Some(l),
{
    lemma_protocol_words();
    lemma_alpha_consequences(privmsg_cmd());
    lemma_alpha_consequences(notice_cmd());
    match l.command {
        CommandModel::Action(dst) => {
            lemma_ctcp_body(privmsg_cmd(), action_verb(), dst, l.args);
            let v = rt_tail(l);
            assert(v =~= ctcp_header(privmsg_cmd(), dst, action_verb()) + sp_join(l.args)
                + seq![CTCP_MARK]);
            let got = parse_after_prefix(l.prefix, v);
            assert(got is Some);
            assert(got.unwrap() =~~= l);
        },
        CommandModel::Ctcp(verb, dst) => {
            lemma_ctcp_body(privmsg_cmd(), verb, dst, l.args);
            let v = rt_tail(l);
            assert(v =~= ctcp_header(privmsg_cmd(), dst, verb) + sp_join(l.args)
                + seq![CTCP_MARK]);
            let got = parse_after_prefix(l.prefix, v);
            assert(got is Some);
            assert(got.unwrap() =~~= l);
        },
        CommandModel::CtcpReply(verb, dst) => {
            lemma_ctcp_body(notice_cmd(), verb, dst, l.args);
            let v = rt_tail(l);
            assert(v =~= ctcp_header(notice_cmd(), dst, verb) + sp_join(l.args) + seq![CTCP_MARK]);
            let got = parse_after_prefix(l.prefix, v);
            assert(got is Some);
            assert(got.unwrap() =~~= l);
        },
        _ => (),
    }
}

/// Law: the codec round trip. For any line whose prefix carries no space,
/// whose command is well-formed, and whose arguments are unambiguous on the
/// wire — middles without spaces or leading colons, at most one
/// space-containing argument and only in trailing position, and for CTCP at
/// most the one folded argument — parsing the rendered bytes gives the very
/// same line back.
pub proof fn lemma_parse_to_raw_roundtrip(l: LineModel)
    requires
        roundtrip_ok(l),
    ensures
        spec_parse(spec_to_raw(l)) == Some(l),
{
    lemma_protocol_words();
    let tail = rt_tail(l);
    match l.command {
        CommandModel::Named(cmd) => lemma_rt_named(l),
        CommandModel::Code(n) => lemma_rt_code(l),
        _ => lemma_rt_ctcp(l),
    }
    // the rendering after the prefix never starts with a colon
    {
        match l.command {
            CommandModel::Named(cmd) => {
                if cmd.len() > 0 {
                    assert(tail[0] == cmd[0]);
                    assert(is_alpha(cmd[0]));
                } else {
                    assert(l.args.len() == 0);
                    assert(args_wire(l.args) =~= Seq::<u8>::empty());
                    assert(tail =~= Seq::<u8>::empty());
                }
            },
            CommandModel::Code(n) => {
                lemma_code3_val(n);
                assert(tail[0] == code3(n)[0]);
            },
            CommandModel::Action(dst) => {
                assert(tail[0] == privmsg_cmd()[0]);
            },
            CommandModel::Ctcp(verb, dst) => {
                assert(tail[0] == privmsg_cmd()[0]);
            },
            CommandModel::CtcpReply(verb, dst) => {
                assert(tail[0] == notice_cmd()[0]);
            },
        }
    }
    match l.prefix {
        None => {
            assert(spec_to_raw(l) =~= tail);
            assert(tail.len() == 0 || tail[0] != COLON);
            assert(spec_parse(spec_to_raw(l)) == parse_after_prefix(None, tail));
        },
        Some(p) => {
            let s = spec_to_raw(l);
            let a = seq![COLON] + p;
            let b = seq![SPACE] + tail;
            assert(s =~= a + b);
            assert(s[0] == COLON);
            assert forall|i: int| 0 <= i < a.len() implies a[i] != SPACE by {
                if i > 0 {
                    assert(a[i] == p[i - 1]);
                }
            }
            lemma_find_byte_is(b, SPACE, 0);
            lemma_find_byte_concat(a, b, SPACE);
            assert(find_byte(s, SPACE) == Some(a.len() as int));
            assert(s.subrange(1, a.len() as int) =~= p);
            assert(s.skip(a.len() as int + 1) =~= tail);
            assert(spec_parse(s) == parse_after_prefix(Some(p), tail));
        },
    }
}

/// Law: the send API's frame cap. Sending a command extends the queue by at
/// most one frame, existing frames are untouched, and every new frame is at
/// most 512 bytes and CRLF-terminated.
pub proof fn lemma_send_command_frame_cap(
    c: ConnModel,
    cm: CommandModel,
    args: Seq<Seq<u8>>,
    add_colon: bool,
)
    ensures
        ({
            let c2 = spec_send_command(c, cm, args, add_colon);
            &&& c2.queue.len() <= c.queue.len() + 1
            &&& forall|i: int| 0 <= i < c.queue.len() ==> c2.queue[i] == c.queue[i]
            &&& forall|i: int|
                c.queue.len() <= i < c2.queue.len() ==> frame_wf(#[trigger] c2.queue[i])
                    && c2.queue[i].len() <= 512
        }),
{
    lemma_wire_frame_wf(render_command(cm, args, add_colon));
}

/// Law: the raw-send frame cap, as for `send_command`.
pub proof fn lemma_send_raw_frame_cap(c: ConnModel, raw: Seq<u8>)
    ensures
        ({
            let c2 = spec_send_raw(c, raw);
            &&& c2.queue.len() <= c.queue.len() + 1
            &&& forall|i: int| 0 <= i < c.queue.len() ==> c2.queue[i] == c.queue[i]
            &&& forall|i: int|
                c.queue.len() <= i < c2.queue.len() ==> frame_wf(#[trigger] c2.queue[i])
                    && c2.queue[i].len() <= 512
        }),
{
    lemma_wire_frame_wf(spec_chomp(raw));
}

/// Every truncated, CRLF-terminated frame is well-formed: at most 512 bytes.
pub proof fn lemma_wire_frame_wf(payload: Seq<u8>)
    ensures
        frame_wf(wire_frame(payload)),
        wire_frame(payload).len() <= 512,
{
    let f = wire_frame(payload);
    assert(f[f.len() - 2] == crate::CR);
    assert(f[f.len() - 1] == crate::LF);
}

/// Law: the login gate. The built-in dispatch turns `logged_in` on exactly
/// at a 001 welcome and never turns it off: afterwards the flag holds if and
/// only if it held before or the line was the 001 numeric. Since a line is
/// delivered to the caller only when `logged_in` holds after dispatch, no
/// line is delivered before the 001 welcome has been processed.
pub proof fn lemma_login_only_via_welcome(c: ConnModel, l: LineModel)
    ensures
        spec_handle_line(c, l).logged_in <==> (c.logged_in || l.command == CommandModel::Code(
            1,
        )),
{
}

/// Law: nick-collision recovery makes progress. The mutation keeps the
/// length and strictly decreases the number of non-underscore bytes, and it
/// yields nothing exactly on an all-underscore nick — so repeated recovery
/// cannot loop forever: it ends in a quit.
pub proof fn lemma_munge_progress(s: Seq<u8>)
    ensures
        match spec_munge(s) {
            Some(t) => t.len() == s.len() && non_us_count(t) + 1 == non_us_count(s),
            None => forall|j: int| 0 <= j < s.len() ==> s[j] == UNDERSCORE,
        },
{
    lemma_last_non_us(s);
    match last_non_us(s) {
        Some(i) => {
            lemma_non_us_count_update(s, i);
        },
        None => (),
    }
}

/// Law: the collision recovery's visible effect. On a connection whose
/// outbound channel is open, the recovery transition enqueues exactly one
/// frame, leaving all earlier frames untouched: a NICK request for the
/// munged nick — the offending nick (the line's first argument, or else the
/// current nick) with its last non-underscore byte flipped to an underscore
/// — when such a byte exists, the identity adopting that nick before login;
/// or a bare QUIT, the identity untouched, when the nick is all
/// underscores. Login state and the channel stay as they were.
pub proof fn lemma_bad_nick_recovery(c: ConnModel, l: LineModel)
    requires
        c.write_open,
    ensures
        ({
            let nick = if l.args.len() > 0 {
                l.args[0]
            } else {
                nick_of(c.user)
            };
            let c2 = spec_bad_nick(c, l);
            &&& c2.queue.len() == c.queue.len() + 1
            &&& forall|i: int| 0 <= i < c.queue.len() ==> c2.queue[i] == c.queue[i]
            &&& match spec_munge(nick) {
                Some(n) => c2.queue.last() == wire_frame(nick_cmd() + seq![SPACE] + n) && (
                if !c.logged_in {
                    c2.user == raw_of(n, user_of(c.user), host_of(c.user))
                } else {
                    c2.user == c.user
                })
                &&
                n == nick.update(last_non_us(nick).unwrap(), UNDERSCORE),
                None => c2.queue.last() == wire_frame(quit_cmd()) && c2.user == c.user && (
                forall|j: int| 0 <= j < nick.len() ==> nick[j] == UNDERSCORE),
            }
            &&& c2.logged_in == c.logged_in
            &&& c2.write_open
        }),
{
    let nick = if l.args.len() > 0 {
        l.args[0]
    } else {
        nick_of(c.user)
    };
    lemma_last_non_us(nick);
    match spec_munge(nick) {
        Some(n) => {
            assert(args_tail(seq![n], false) =~= seq![SPACE] + n);
            assert(seq![n].drop_last() =~= Seq::<Seq<u8>>::empty());
            assert(sp_join(seq![n].drop_last()) =~= Seq::<u8>::empty());
            assert(render_command(CommandModel::Named(nick_cmd()), seq![n], false) =~= nick_cmd()
                + seq![SPACE] + n);
        },
        None => {
            assert(args_tail(Seq::<Seq<u8>>::empty(), false) =~= Seq::<u8>::empty());
            assert(render_command(CommandModel::Named(quit_cmd()), Seq::empty(), false)
                =~= quit_cmd());
        },
    }
}

/// How many bytes are not underscores.
pub open spec fn non_us_count(s: Seq<u8>) -> nat
    decreases s.len(),
{
    if s.len() == 0 {
        0
    } else {
        non_us_count(s.drop_last()) + (if s.last() == UNDERSCORE {
            0nat
        } else {
            1nat
        })
    }
}

/// Flipping a non-underscore byte to an underscore lowers the count by one.
proof fn lemma_non_us_count_update(s: Seq<u8>, i: int)
    requires
        0 <= i < s.len(),
        s[i] != UNDERSCORE,
    ensures
        non_us_count(s.update(i, UNDERSCORE)) + 1 == non_us_count(s),
    decreases s.len(),
{
    let t = s.update(i, UNDERSCORE);
    if i == s.len() - 1 {
        assert(t.drop_last() =~= s.drop_last());
        assert(t.last() == UNDERSCORE);
    } else {
        assert(t.drop_last() =~= s.drop_last().update(i, UNDERSCORE));
        assert(t.last() == s.last());
        assert(s.drop_last()[i] == s[i]);
        lemma_non_us_count_update(s.drop_last(), i);
    }
}

} // verus!

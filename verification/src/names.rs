//! Byte spellings of the protocol words the engine reads and writes, each as
//! a specification sequence with its executable builder.

use vstd::prelude::*;

verus! {

/// `"PRIVMSG"`: the PRIVMSG command name.
pub open spec fn privmsg_cmd() -> Seq<u8> {
    seq![80u8, 82, 73, 86, 77, 83, 71]
}

/// `"PRIVMSG"` as a byte-vector.
pub fn privmsg_bytes() -> (r: Vec<u8>)
    ensures
        r@ == privmsg_cmd(),
{
    let mut v: Vec<u8> = Vec::new();
    v.push(80);
    v.push(82);
    v.push(73);
    v.push(86);
    v.push(77);
    v.push(83);
    v.push(71);
    proof {
        assert(v@ =~= privmsg_cmd());
    }
    v
}

/// `"NOTICE"`: the NOTICE command name.
pub open spec fn notice_cmd() -> Seq<u8> {
    seq![78u8, 79, 84, 73, 67, 69]
}

/// `"NOTICE"` as a byte-vector.
pub fn notice_bytes() -> (r: Vec<u8>)
    ensures
        r@ == notice_cmd(),
{
    let mut v: Vec<u8> = Vec::new();
    v.push(78);
    v.push(79);
    v.push(84);
    v.push(73);
    v.push(67);
    v.push(69);
    proof {
        assert(v@ =~= notice_cmd());
    }
    v
}

/// `"ACTION"`: the ACTION CTCP verb.
pub open spec fn action_verb() -> Seq<u8> {
    seq![65u8, 67, 84, 73, 79, 78]
}

/// `"ACTION"` as a byte-vector.
pub fn action_bytes() -> (r: Vec<u8>)
    ensures
        r@ == action_verb(),
{
    let mut v: Vec<u8> = Vec::new();
    v.push(65);
    v.push(67);
    v.push(84);
    v.push(73);
    v.push(79);
    v.push(78);
    proof {
        assert(v@ =~= action_verb());
    }
    v
}

/// `"PING"`: the PING command name.
pub open spec fn ping_cmd() -> Seq<u8> {
    seq![80u8, 73, 78, 71]
}

/// `"PING"` as a byte-vector.
pub fn ping_bytes() -> (r: Vec<u8>)
    ensures
        r@ == ping_cmd(),
{
    let mut v: Vec<u8> = Vec::new();
    v.push(80);
    v.push(73);
    v.push(78);
    v.push(71);
    proof {
        assert(v@ =~= ping_cmd());
    }
    v
}

/// `"PONG"`: the PONG command name.
pub open spec fn pong_cmd() -> Seq<u8> {
    seq![80u8, 79, 78, 71]
}

/// `"PONG"` as a byte-vector.
pub fn pong_bytes() -> (r: Vec<u8>)
    ensures
        r@ == pong_cmd(),
{
    let mut v: Vec<u8> = Vec::new();
    v.push(80);
    v.push(79);
    v.push(78);
    v.push(71);
    proof {
        assert(v@ =~= pong_cmd());
    }
    v
}

/// `"NICK"`: the NICK command name.
pub open spec fn nick_cmd() -> Seq<u8> {
    seq![78u8, 73, 67, 75]
}

/// `"NICK"` as a byte-vector.
pub fn nick_bytes() -> (r: Vec<u8>)
    ensures
        r@ == nick_cmd(),
{
    let mut v: Vec<u8> = Vec::new();
    v.push(78);
    v.push(73);
    v.push(67);
    v.push(75);
    proof {
        assert(v@ =~= nick_cmd());
    }
    v
}

/// `"QUIT"`: the QUIT command name.
pub open spec fn quit_cmd() -> Seq<u8> {
    seq![81u8, 85, 73, 84]
}

/// `"QUIT"` as a byte-vector.
pub fn quit_bytes() -> (r: Vec<u8>)
    ensures
        r@ == quit_cmd(),
{
    let mut v: Vec<u8> = Vec::new();
    v.push(81);
    v.push(85);
    v.push(73);
    v.push(84);
    proof {
        assert(v@ =~= quit_cmd());
    }
    v
}

/// `"USER"`: the USER command name.
pub open spec fn user_cmd() -> Seq<u8> {
    seq![85u8, 83, 69, 82]
}

/// `"USER"` as a byte-vector.
pub fn user_bytes() -> (r: Vec<u8>)
    ensures
        r@ == user_cmd(),
{
    let mut v: Vec<u8> = Vec::new();
    v.push(85);
    v.push(83);
    v.push(69);
    v.push(82);
    proof {
        assert(v@ =~= user_cmd());
    }
    v
}

/// `"JOIN"`: the JOIN command name.
pub open spec fn join_cmd() -> Seq<u8> {
    seq![74u8, 79, 73, 78]
}

/// `"JOIN"` as a byte-vector.
pub fn join_bytes() -> (r: Vec<u8>)
    ensures
        r@ == join_cmd(),
{
    let mut v: Vec<u8> = Vec::new();
    v.push(74);
    v.push(79);
    v.push(73);
    v.push(78);
    proof {
        assert(v@ =~= join_cmd());
    }
    v
}

/// `"PART"`: the PART command name.
pub open spec fn part_cmd() -> Seq<u8> {
    seq![80u8, 65, 82, 84]
}

/// `"PART"` as a byte-vector.
pub fn part_bytes() -> (r: Vec<u8>)
    ensures
        r@ == part_cmd(),
{
    let mut v: Vec<u8> = Vec::new();
    v.push(80);
    v.push(65);
    v.push(82);
    v.push(84);
    proof {
        assert(v@ =~= part_cmd());
    }
    v
}

/// `"ircnick"`: the default nickname.
pub open spec fn default_nick() -> Seq<u8> {
    seq![105u8, 114, 99, 110, 105, 99, 107]
}

/// `"ircnick"` as a byte-vector.
pub fn default_nick_bytes() -> (r: Vec<u8>)
    ensures
        r@ == default_nick(),
{
    let mut v: Vec<u8> = Vec::new();
    v.push(105);
    v.push(114);
    v.push(99);
    v.push(110);
    v.push(105);
    v.push(99);
    v.push(107);
    proof {
        assert(v@ =~= default_nick());
    }
    v
}

/// `"ircuser"`: the default username.
pub open spec fn default_user() -> Seq<u8> {
    seq![105u8, 114, 99, 117, 115, 101, 114]
}

/// `"ircuser"` as a byte-vector.
pub fn default_user_bytes() -> (r: Vec<u8>)
    ensures
        r@ == default_user(),
{
    let mut v: Vec<u8> = Vec::new();
    v.push(105);
    v.push(114);
    v.push(99);
    v.push(117);
    v.push(115);
    v.push(101);
    v.push(114);
    proof {
        assert(v@ =~= default_user());
    }
    v
}

/// `"rust-irclib user"`: the default real name.
pub open spec fn default_real() -> Seq<u8> {
    seq![114u8, 117, 115, 116, 45, 105, 114, 99, 108, 105, 98, 32, 117, 115, 101, 114]
}

/// `"rust-irclib user"` as a byte-vector.
pub fn default_real_bytes() -> (r: Vec<u8>)
    ensures
        r@ == default_real(),
{
    let mut v: Vec<u8> = Vec::new();
    v.push(114);
    v.push(117);
    v.push(115);
    v.push(116);
    v.push(45);
    v.push(105);
    v.push(114);
    v.push(99);
    v.push(108);
    v.push(105);
    v.push(98);
    v.push(32);
    v.push(117);
    v.push(115);
    v.push(101);
    v.push(114);
    proof {
        assert(v@ =~= default_real());
    }
    v
}

/// `"8 *"`: the fixed mode/unused arguments of the USER command.
pub open spec fn user_mode_args() -> Seq<u8> {
    seq![56u8, 32, 42]
}

/// `"8 *"` as a byte-vector.
pub fn user_mode_bytes() -> (r: Vec<u8>)
    ensures
        r@ == user_mode_args(),
{
    let mut v: Vec<u8> = Vec::new();
    v.push(56);
    v.push(32);
    v.push(42);
    proof {
        assert(v@ =~= user_mode_args());
    }
    v
}

} // verus!
//! Client-side engine for the IRC wire protocol: a byte-exact line codec
//! (including the CTCP sub-protocol), user-identity parsing, and the
//! connection state machine with its built-in handshake handlers.

use vstd::prelude::*;

pub mod codec;
pub mod handlers;
pub mod laws;
pub mod conn;
pub mod names;
pub mod util;

use crate::util::append_slice;
use crate::util::sub_vec;

verus! {

/// The space separating tokens on a wire line.
pub const SPACE: u8 = 32;

/// The `:` that introduces a prefix or a trailing argument.
pub const COLON: u8 = 58;

/// The `!` delimiter between nick and username in a prefix.
pub const BANG: u8 = 33;

/// The `@` delimiter between username and host in a prefix.
pub const AT: u8 = 64;

/// The byte that frames a CTCP span inside a PRIVMSG or NOTICE payload.
pub const CTCP_MARK: u8 = 1;

/// Carriage return.
pub const CR: u8 = 13;

/// Line feed.
pub const LF: u8 = 10;

/// The `_` byte used by nick-collision recovery.
pub const UNDERSCORE: u8 = 95;

/// Index of the first occurrence of `b` in `s`, if any.
pub open spec fn find_byte(s: Seq<u8>, b: u8) -> Option<int>
    decreases s.len(),
{
    if s.len() == 0 {
        None
    } else if s[0] == b {
        Some(0int)
    } else {
        match find_byte(s.skip(1), b) {
            None => None,
            Some(i) => Some(i + 1),
        }
    }
}

/// `find_byte` returns the first occurrence: the byte is there, and nothing
/// before it matches.
pub proof fn lemma_find_byte(s: Seq<u8>, b: u8)
    ensures
        match find_byte(s, b) {
            Some(i) => 0 <= i < s.len() && s[i] == b && (forall|j: int| 0 <= j < i ==> s[j] != b),
            None => forall|j: int| 0 <= j < s.len() ==> s[j] != b,
        },
    decreases s.len(),
{
    if s.len() > 0 && s[0] != b {
        lemma_find_byte(s.skip(1), b);
        assert forall|j: int| 1 <= j < s.len() implies s[j] == s.skip(1)[j - 1] by {}
    }
}

/// Conversely, a first occurrence determines the value of `find_byte`.
pub proof fn lemma_find_byte_is(s: Seq<u8>, b: u8, i: int)
    requires
        0 <= i < s.len(),
        s[i] == b,
        forall|j: int| 0 <= j < i ==> s[j] != b,
    ensures
        find_byte(s, b) == Some(i),
    decreases s.len(),
{
    if i > 0 {
        assert forall|j: int| 0 <= j < i - 1 implies s.skip(1)[j] != b by {
            assert(s.skip(1)[j] == s[j + 1]);
        }
        assert(s.skip(1)[i - 1] == s[i]);
        lemma_find_byte_is(s.skip(1), b, i - 1);
    }
}

/// When no byte matches, `find_byte` finds nothing.
pub proof fn lemma_find_byte_none(s: Seq<u8>, b: u8)
    requires
        forall|j: int| 0 <= j < s.len() ==> s[j] != b,
    ensures
        find_byte(s, b) == None::<int>,
    decreases s.len(),
{
    if s.len() > 0 {
        assert forall|j: int| 0 <= j < s.skip(1).len() implies s.skip(1)[j] != b by {
            assert(s.skip(1)[j] == s[j + 1]);
        }
        lemma_find_byte_none(s.skip(1), b);
    }
}

/// Position of the first `@` in a raw identity, if any.
pub open spec fn at_pos(s: Seq<u8>) -> Option<int> {
    find_byte(s, AT)
}

/// The scan for `!` stops at the first `@`: everything before it.
pub open spec fn at_limit(s: Seq<u8>) -> int {
    match at_pos(s) {
        Some(i) => i,
        None => s.len() as int,
    }
}

/// Position of the first `!` that occurs before the first `@`, if any.
pub open spec fn bang_pos(s: Seq<u8>) -> Option<int> {
    find_byte(s.take(at_limit(s)), BANG)
}

/// Length of the nick part of a raw identity.
pub open spec fn nick_len_of(s: Seq<u8>) -> int {
    match bang_pos(s) {
        Some(i) => i,
        None => at_limit(s),
    }
}

/// The nick part of a raw identity.
pub open spec fn nick_of(s: Seq<u8>) -> Seq<u8> {
    s.take(nick_len_of(s))
}

/// The username part of a raw identity: between `!` and the first `@`, if
/// a `!` is present.
pub open spec fn user_of(s: Seq<u8>) -> Option<Seq<u8>> {
    match bang_pos(s) {
        Some(i) => Some(s.subrange(i + 1, at_limit(s))),
        None => None,
    }
}

/// The hostname part of a raw identity: after the first `@`, if present.
pub open spec fn host_of(s: Seq<u8>) -> Option<Seq<u8>> {
    match at_pos(s) {
        Some(i) => Some(s.subrange(i + 1, s.len() as int)),
        None => None,
    }
}

/// The raw rendering `nick[!user][@host]`.
pub open spec fn raw_of(nick: Seq<u8>, user: Option<Seq<u8>>, host: Option<Seq<u8>>) -> Seq<u8> {
    nick + (match user {
        Some(u) => seq![BANG] + u,
        None => Seq::<u8>::empty(),
    }) + (match host {
        Some(h) => seq![AT] + h,
        None => Seq::<u8>::empty(),
    })
}

/// The delimiter positions are inside the identity, in order.
pub proof fn lemma_identity_bounds(s: Seq<u8>)
    ensures
        0 <= at_limit(s) <= s.len(),
        0 <= nick_len_of(s) <= at_limit(s),
        match at_pos(s) {
            Some(i) => 0 <= i < s.len() && s[i] == AT,
            None => true,
        },
        match bang_pos(s) {
            Some(i) => 0 <= i < at_limit(s) && s[i] == BANG,
            None => true,
        },
{
    lemma_find_byte(s, AT);
    lemma_find_byte(s.take(at_limit(s)), BANG);
}

/// Representation of an IRC user: the raw identity `nick[!user][@host]`
/// together with the delimiter offsets that a re-parse of the raw bytes
/// yields. The offsets are always derived from the raw bytes, never patched
/// by hand.
#[derive(Clone, PartialEq, Eq, Debug)]
pub struct User {
    raw: Vec<u8>,
    nicklen: usize,
    user: Option<(usize, usize)>,
    host: Option<(usize, usize)>,
}

impl View for User {
    type V = Seq<u8>;

    closed spec fn view(&self) -> Seq<u8> {
        self.raw@
    }
}

impl User {
    /// The stored offsets agree with a re-parse of the raw bytes.
    pub closed spec fn wf(&self) -> bool {
        &&& self.nicklen == nick_len_of(self.raw@)
        &&& (match (self.user, bang_pos(self.raw@)) {
            (Some((a, b)), Some(i)) => a == i + 1 && b == at_limit(self.raw@),
            (None, None) => true,
            _ => false,
        })
        &&& (match (self.host, at_pos(self.raw@)) {
            (Some((a, b)), Some(i)) => a == i + 1 && b == self.raw@.len(),
            (None, None) => true,
            _ => false,
        })
    }

    /// Parse a byte-vector of the form `nickname[!username][@host]` into a
    /// User. A single scan finds the first `!` and the first `@`, stopping
    /// at the `@`, so a later `!` is not host-significant.
    pub fn parse(v: Vec<u8>) -> (u: User)
        ensures
            u@ == v@,
            u.wf(),
    {
        let len = v.len();
        let mut bangloc: Option<usize> = None;
        let mut atloc: Option<usize> = None;
        let mut i: usize = 0;
        while i < len && atloc.is_none()
            invariant
                i <= len,
                len == v@.len(),
                match atloc {
                    Some(k) => k == i && i < len && v@[k as int] == AT && (forall|j: int|
                        0 <= j < k ==> v@[j] != AT),
                    None => forall|j: int| 0 <= j < i ==> v@[j] != AT,
                },
                match bangloc {
                    Some(k) => 0 <= k < i && v@[k as int] == BANG && (forall|j: int|
                        0 <= j < k ==> v@[j] != BANG),
                    None => forall|j: int| 0 <= j < i ==> v@[j] != BANG,
                },
            decreases len - i + (if atloc.is_none() { 1int } else { 0int }),
        {
            let b = v[i];
            if bangloc.is_none() && b == BANG {
                bangloc = Some(i);
                i += 1;
            } else if b == AT {
                atloc = Some(i);
            } else {
                i += 1;
            }
        }
        proof {
            match atloc {
                Some(k) => lemma_find_byte_is(v@, AT, k as int),
                None => lemma_find_byte_none(v@, AT),
            }
            let limit = at_limit(v@);
            assert(limit == i);
            let pre = v@.take(limit);
            match bangloc {
                Some(k) => {
                    assert(pre[k as int] == v@[k as int]);
                    assert forall|j: int| 0 <= j < k implies pre[j] != BANG by {
                        assert(pre[j] == v@[j]);
                    }
                    lemma_find_byte_is(pre, BANG, k as int);
                },
                None => {
                    assert forall|j: int| 0 <= j < pre.len() implies pre[j] != BANG by {
                        assert(pre[j] == v@[j]);
                    }
                    lemma_find_byte_none(pre, BANG);
                },
            }
        }
        let nicklen: usize = match (bangloc, atloc) {
            (Some(k), _) => k,
            (None, Some(k)) => k,
            (None, None) => len,
        };
        let user: Option<(usize, usize)> = match bangloc {
            Some(k) => Some((k + 1, i)),
            None => None,
        };
        let host: Option<(usize, usize)> = match atloc {
            Some(k) => Some((k + 1, len)),
            None => None,
        };
        User { raw: v, nicklen, user, host }
    }

    /// Construct a new User from source components. The raw concatenation is
    /// re-parsed rather than trusted, so a nick containing `!` or `@` is
    /// reinterpreted consistently.
    pub fn new(nick: &[u8], user: Option<&[u8]>, host: Option<&[u8]>) -> (u: User)
        ensures
            u@ == raw_of(
                nick@,
                match user {
                    Some(s) => Some(s@),
                    None => None,
                },
                match host {
                    Some(s) => Some(s@),
                    None => None,
                },
            ),
            u.wf(),
    {
        let mut raw: Vec<u8> = Vec::new();
        append_slice(&mut raw, nick);
        match user {
            Some(s) => {
                raw.push(BANG);
                append_slice(&mut raw, s);
            },
            None => (),
        }
        match host {
            Some(s) => {
                raw.push(AT);
                append_slice(&mut raw, s);
            },
            None => (),
        }
        proof {
            assert(raw@ =~= raw_of(
                nick@,
                match user {
                    Some(s) => Some(s@),
                    None => None,
                },
                match host {
                    Some(s) => Some(s@),
                    None => None,
                },
            ));
        }
        User::parse(raw)
    }

    /// The raw byte-vector that represents the User.
    pub fn raw(&self) -> (r: &[u8])
        ensures
            r@ == self@,
    {
        self.raw.as_slice()
    }

    /// The nickname of the User.
    pub fn nick(&self) -> (r: Vec<u8>)
        requires
            self.wf(),
        ensures
            r@ == nick_of(self@),
    {
        proof {
            lemma_identity_bounds(self.raw@);
        }
        sub_vec(self.raw.as_slice(), 0, self.nicklen)
    }

    /// The username of the User, if any.
    pub fn user(&self) -> (r: Option<Vec<u8>>)
        requires
            self.wf(),
        ensures
            match (r, user_of(self@)) {
                (Some(v), Some(s)) => v@ == s,
                (None, None) => true,
                _ => false,
            },
    {
        proof {
            lemma_identity_bounds(self.raw@);
        }
        match self.user {
            Some((a, b)) => Some(sub_vec(self.raw.as_slice(), a, b)),
            None => None,
        }
    }

    /// The hostname of the User, if any.
    pub fn host(&self) -> (r: Option<Vec<u8>>)
        requires
            self.wf(),
        ensures
            match (r, host_of(self@)) {
                (Some(v), Some(s)) => v@ == s,
                (None, None) => true,
                _ => false,
            },
    {
        proof {
            lemma_identity_bounds(self.raw@);
        }
        match self.host {
            Some((a, b)) => Some(sub_vec(self.raw.as_slice(), a, b)),
            None => None,
        }
    }

    /// A new User with the given nick and the username/hostname of the
    /// receiver, re-rendered and re-parsed.
    pub fn with_nick(&self, nick: &[u8]) -> (u: User)
        requires
            self.wf(),
        ensures
            u@ == raw_of(nick@, user_of(self@), host_of(self@)),
            u.wf(),
    {
        let user = self.user();
        let host = self.host();
        User::new(
            nick,
            match &user {
                Some(v) => Some(v.as_slice()),
                None => None,
            },
            match &host {
                Some(v) => Some(v.as_slice()),
                None => None,
            },
        )
    }
}

} // verus!

//! Small executable helpers over byte slices and vectors, each tied to the
//! sequence operations the contracts are stated with.

use vstd::prelude::*;
use vstd::slice::{slice_subrange, slice_to_vec};
use crate::find_byte;
use crate::lemma_find_byte_is;
use crate::lemma_find_byte_none;

verus! {

/// The byte sequences a vector of byte-vectors holds, in order.
pub open spec fn views_of(q: Seq<Vec<u8>>) -> Seq<Seq<u8>> {
    Seq::new(q.len(), |i: int| q[i]@)
}

/// Pushing a vector pushes its view.
pub broadcast proof fn lemma_views_of_push(q: Seq<Vec<u8>>, x: Vec<u8>)
    ensures
        #[trigger] views_of(q.push(x)) == views_of(q).push(x@),
{
    assert(views_of(q.push(x)) =~= views_of(q).push(x@));
}

/// Copy of `v[a..b]` as a fresh vector.
pub fn sub_vec(v: &[u8], a: usize, b: usize) -> (r: Vec<u8>)
    requires
        a <= b <= v@.len(),
    ensures
        r@ == v@.subrange(a as int, b as int),
{
    slice_to_vec(slice_subrange(v, a, b))
}

/// Append all of `src` to `dst`.
pub fn append_slice(dst: &mut Vec<u8>, src: &[u8])
    ensures
        final(dst)@ == old(dst)@ + src@,
{
    let mut i: usize = 0;
    while i < src.len()
        invariant
            i <= src@.len(),
            dst@ == old(dst)@ + src@.take(i as int),
        decreases src@.len() - i,
    {
        dst.push(src[i]);
        proof {
            assert(dst@ =~= old(dst)@ + src@.take(i + 1));
        }
        i += 1;
    }
    proof {
        assert(dst@ =~= old(dst)@ + src@);
    }
}

/// Byte-for-byte equality of two slices.
pub fn bytes_eq(a: &[u8], b: &[u8]) -> (r: bool)
    ensures
        r == (a@ == b@),
{
    if a.len() != b.len() {
        return false;
    }
    let mut i: usize = 0;
    while i < a.len()
        invariant
            i <= a@.len(),
            a@.len() == b@.len(),
            forall|j: int| 0 <= j < i ==> a@[j] == b@[j],
        decreases a@.len() - i,
    {
        if a[i] != b[i] {
            return false;
        }
        i += 1;
    }
    proof {
        assert(a@ =~= b@);
    }
    true
}

/// First occurrence of `b` in `v` at or after `start`, as an absolute index.
pub fn find_byte_at(v: &[u8], start: usize, b: u8) -> (r: Option<usize>)
    requires
        start <= v@.len(),
    ensures
        match find_byte(v@.skip(start as int), b) {
            Some(i) => r == Some((i + start) as usize),
            None => r is None,
        },
{
    let mut i: usize = start;
    while i < v.len()
        invariant
            start <= i <= v@.len(),
            forall|j: int| start <= j < i ==> v@[j] != b,
        decreases v@.len() - i,
    {
        if v[i] == b {
            proof {
                let s = v@.skip(start as int);
                assert forall|j: int| 0 <= j < i - start implies s[j] != b by {
                    assert(s[j] == v@[j + start]);
                }
                assert(s[i - start] == b);
                lemma_find_byte_is(s, b, i - start);
            }
            return Some(i);
        }
        i += 1;
    }
    proof {
        let s = v@.skip(start as int);
        assert forall|j: int| 0 <= j < s.len() implies s[j] != b by {
            assert(s[j] == v@[j + start]);
        }
        lemma_find_byte_none(s, b);
    }
    None
}

} // verus!

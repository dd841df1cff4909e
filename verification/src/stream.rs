use vstd::prelude::*;

verus! {

use vstd::utf8::{valid_utf8, decode_utf8};
use crate::error::{DecodeError, DecodeErr};

/// The byte index just past the first `term` byte of `s` (the terminator is
/// consumed), or `s.len()` when `s` holds no `term`.
pub open spec fn spec_consumed(s: Seq<u8>, term: u8) -> int {
    match s.index_of_first(term) {
        Some(i) => i + 1,
        None => s.len() as int,
    }
}

/// The bytes of `s` before its first `term` byte, or all of `s` when it holds
/// no `term`.
pub open spec fn spec_scan(s: Seq<u8>, term: u8) -> Seq<u8> {
    match s.index_of_first(term) {
        Some(i) => s.take(i),
        None => s,
    }
}

/// What is left of `s` after one terminated read: everything past the first
/// `term` byte, or nothing when `s` holds no `term`.
pub open spec fn spec_scan_rest(s: Seq<u8>, term: u8) -> Seq<u8> {
    s.skip(spec_consumed(s, term))
}

/// Basic bounds: one terminated read consumes between `spec_scan` and the
/// terminator, and never more than the stream.
pub proof fn lemma_scan_bounds(s: Seq<u8>, term: u8)
    ensures
        0 <= spec_scan(s, term).len() <= s.len(),
        spec_scan(s, term).len() <= spec_consumed(s, term) <= s.len(),
        spec_scan(s, term).len() < s.len() ==> spec_consumed(s, term) == spec_scan(s, term).len() + 1,
{
    s.index_of_first_ensures(term);
}

/// A stream of decompressed bytes with a read position; reads consume from the
/// front.
pub struct ByteStream {
    bytes: Vec<u8>,
    pos: usize,
}

impl ByteStream {
    /// The read position never passes the end of the buffer.
    pub closed spec fn wf(&self) -> bool {
        self.pos <= self.bytes@.len()
    }

    /// The bytes not yet consumed.
    pub closed spec fn remaining(&self) -> Seq<u8> {
        self.bytes@.skip(self.pos as int)
    }

    pub fn new(bytes: Vec<u8>) -> (r: ByteStream)
        ensures
            r.wf(),
            r.remaining() == bytes@,
    {
        let r = ByteStream { bytes, pos: 0 };
        proof {
            assert(r.remaining() =~= r.bytes@);
        }
        r
    }

    /// Consumes and returns everything that is left.
    pub fn read_to_end(&mut self) -> (r: Vec<u8>)
        requires
            old(self).wf(),
        ensures
            final(self).wf(),
            r@ == old(self).remaining(),
            final(self).remaining() == Seq::<u8>::empty(),
    {
        let r = copy_range(&self.bytes, self.pos, self.bytes.len());
        self.pos = self.bytes.len();
        proof {
            assert(final(self).remaining() =~= Seq::<u8>::empty());
        }
        r
    }

    /// How many bytes are left.
    pub fn remaining_len(&self) -> (r: usize)
        requires
            self.wf(),
        ensures
            r == self.remaining().len(),
    {
        self.bytes.len() - self.pos
    }

    /// Consumes bytes up to (and including) the first `term` byte, or to the
    /// end of the stream, and returns them without the terminator.
    pub fn read_scan(&mut self, term: u8) -> (r: Vec<u8>)
        requires
            old(self).wf(),
        ensures
            final(self).wf(),
            r@ == spec_scan(old(self).remaining(), term),
            final(self).remaining() == spec_scan_rest(old(self).remaining(), term),
    {
        let ghost s0 = old(self).remaining();
        let end = scan_forward(&self.bytes, self.pos, term);
        let tok = copy_range(&self.bytes, self.pos, end);
        let new_pos = if end < self.bytes.len() { end + 1 } else { end };
        proof {
            s0.index_of_first_ensures(term);
            assert forall|k: int| 0 <= k < end - self.pos implies s0[k] != term by {
                assert(s0[k] == self.bytes@[self.pos + k]);
            }
            if end < self.bytes@.len() {
                assert(s0[end - self.pos] == self.bytes@[end as int]);
                assert(s0.index_of_first(term) == Some(end - self.pos as int));
            } else {
                assert(!s0.contains(term));
            }
            assert(tok@ =~= spec_scan(s0, term));
            assert(self.bytes@.skip(new_pos as int) =~= spec_scan_rest(s0, term));
        }
        self.pos = new_pos;
        tok
    }

    /// Consumes exactly `n` bytes, or nothing when fewer than `n` are left.
    pub fn read_exact(&mut self, n: usize) -> (r: Option<Vec<u8>>)
        requires
            old(self).wf(),
        ensures
            final(self).wf(),
            match r {
                Some(v) => {
                    &&& old(self).remaining().len() >= n
                    &&& v@ == old(self).remaining().take(n as int)
                    &&& final(self).remaining() == old(self).remaining().skip(n as int)
                },
                None => {
                    &&& old(self).remaining().len() < n
                    &&& *final(self) == *old(self)
                },
            },
    {
        if n > self.bytes.len() - self.pos {
            return None;
        }
        let r = copy_range(&self.bytes, self.pos, self.pos + n);
        self.pos = self.pos + n;
        proof {
            assert(r@ =~= old(self).remaining().take(n as int));
            assert(final(self).remaining() =~= old(self).remaining().skip(n as int));
        }
        Some(r)
    }
}

/// A fresh copy of a byte vector.
pub(crate) fn clone_bytes(data: &Vec<u8>) -> (r: Vec<u8>)
    ensures
        r@ == data@,
{
    let r = copy_range(data, 0, data.len());
    proof {
        assert(data@.subrange(0, data@.len() as int) =~= data@);
    }
    r
}

/// A fresh copy of `bytes[from..to]`.
fn copy_range(bytes: &Vec<u8>, from: usize, to: usize) -> (r: Vec<u8>)
    requires
        from <= to <= bytes@.len(),
    ensures
        r@ == bytes@.subrange(from as int, to as int),
{
    let mut r: Vec<u8> = Vec::new();
    let mut i: usize = from;
    while i < to
        invariant
            from <= i <= to <= bytes@.len(),
            r@ == bytes@.subrange(from as int, i as int),
        decreases to - i,
    {
        r.push(bytes[i]);
        i = i + 1;
        proof {
            assert(r@ =~= bytes@.subrange(from as int, i as int));
        }
    }
    r
}

/// Index of the first `term` byte at or after `start` in `bytes`, or
/// `bytes.len()` when there is none.
fn scan_forward(bytes: &Vec<u8>, start: usize, term: u8) -> (r: usize)
    requires
        start <= bytes@.len(),
    ensures
        start <= r <= bytes@.len(),
        forall|j: int| start <= j < r ==> bytes@[j] != term,
        r < bytes@.len() ==> bytes@[r as int] == term,
{
    let mut i: usize = start;
    while i < bytes.len()
        invariant
            start <= i <= bytes@.len(),
            forall|j: int| start <= j < i ==> bytes@[j] != term,
        decreases bytes@.len() - i,
    {
        if bytes[i] == term {
            return i;
        }
        i = i + 1;
    }
    i
}

/// Relies on alloc's `String::from_utf8`: returns the UTF-8 decoding of the
/// bytes when they are valid UTF-8, and nothing otherwise.
#[verifier::external_body]
pub(crate) fn string_from_utf8(bytes: &Vec<u8>) -> (r: Option<String>)
    ensures
        match r {
            Some(s) => valid_utf8(bytes@) && s@ == decode_utf8(bytes@),
            None => !valid_utf8(bytes@),
        },
{
    String::from_utf8(bytes.clone()).ok()
}

/// Reads bytes up to (and consuming) the first nul byte, or to the end of the
/// stream, and decodes them as UTF-8 text. An empty result is not an error: a
/// stream at its end yields the empty string.
pub fn read_null_terminated_string(reader: &mut ByteStream) -> (r: Result<String, DecodeError>)
    requires
        old(reader).wf(),
    ensures
        final(reader).wf(),
        final(reader).remaining() == spec_scan_rest(old(reader).remaining(), 0),
        match r {
            Ok(s) => {
                &&& valid_utf8(spec_scan(old(reader).remaining(), 0))
                &&& s@ == decode_utf8(spec_scan(old(reader).remaining(), 0))
            },
            Err(e) => {
                &&& !valid_utf8(spec_scan(old(reader).remaining(), 0))
                &&& e@ == DecodeErr::MalformedEncoding
            },
        },
{
    let tok = reader.read_scan(0);
    match string_from_utf8(&tok) {
        Some(s) => Ok(s),
        None => Err(DecodeError::MalformedEncoding),
    }
}

} // verus!

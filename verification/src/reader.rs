//! A bounds-checked, non-panicking cursor over an immutable byte slice.
//!
//! Every decoder in this crate reads its input through a [`Reader`]; none of
//! them touches raw buffer indices. The cursor advances monotonically and
//! never reads past the end of the underlying slice.

use vstd::prelude::*;
use vstd::slice::{slice_index_get, slice_subrange};

verus! {

/// Position state over an immutable byte slice.
pub struct Reader<'a> {
    data: &'a [u8],
    pos: usize,
}

impl<'a> Reader<'a> {
    /// The whole underlying buffer, which never changes over the life of the
    /// cursor.
    pub closed spec fn all_bytes(self) -> Seq<u8> {
        self.data@
    }

    /// The current position, counted from the start of the buffer.
    pub closed spec fn pos_spec(self) -> int {
        self.pos as int
    }

    /// A cursor is well formed when its position lies within the buffer.
    pub open spec fn wf(self) -> bool {
        0 <= self.pos_spec() <= self.all_bytes().len()
    }

    /// The bytes not yet consumed.
    pub open spec fn remaining(self) -> Seq<u8> {
        self.all_bytes().subrange(self.pos_spec(), self.all_bytes().len() as int)
    }

    /// A fresh cursor at the start of `data`.
    pub fn new(data: &'a [u8]) -> (r: Reader<'a>)
        ensures
            r.wf(),
            r.all_bytes() == data@,
            r.pos_spec() == 0,
            r.remaining() == data@,
    {
        let r = Reader { data, pos: 0 };
        proof {
            assert(r.remaining() =~= data@);
        }
        r
    }

    /// Whether every byte has been consumed.
    pub fn at_end(&self) -> (r: bool)
        ensures
            r <==> self.pos_spec() == self.all_bytes().len(),
            self.wf() ==> (r <==> self.remaining().len() == 0),
    {
        self.pos == self.data.len()
    }

    /// Whether the next byte exists and equals `b`; consumes nothing.
    pub fn peek(&self, b: u8) -> (r: bool)
        requires
            self.wf(),
        ensures
            r <==> (self.remaining().len() > 0 && self.remaining()[0] == b),
    {
        if self.pos < self.data.len() {
            *slice_index_get(self.data, self.pos) == b
        } else {
            false
        }
    }

    /// Reads one byte, or returns `None` at the end of the input.
    pub fn read_byte(&mut self) -> (r: Option<u8>)
        requires
            old(self).wf(),
        ensures
            final(self).wf(),
            final(self).all_bytes() == old(self).all_bytes(),
            old(self).remaining().len() > 0 ==> {
                &&& r == Some(old(self).remaining()[0])
                &&& final(self).remaining() == old(self).remaining().skip(1)
                &&& final(self).pos_spec() == old(self).pos_spec() + 1
            },
            old(self).remaining().len() == 0 ==> r is None && *final(self) == *old(self),
    {
        if self.pos < self.data.len() {
            let b = *slice_index_get(self.data, self.pos);
            self.pos = self.pos + 1;
            proof {
                assert(self.remaining() =~= old(self).remaining().skip(1));
            }
            Some(b)
        } else {
            None
        }
    }

    /// Returns the next `n` bytes as a sub-slice and advances past them, or
    /// returns `None`, consuming nothing, when fewer than `n` bytes remain.
    pub fn skip_and_get_input(&mut self, n: usize) -> (r: Option<&'a [u8]>)
        requires
            old(self).wf(),
        ensures
            final(self).wf(),
            final(self).all_bytes() == old(self).all_bytes(),
            n <= old(self).remaining().len() ==> {
                &&& r matches Some(s) && s@ == old(self).remaining().take(n as int)
                &&& final(self).remaining() == old(self).remaining().skip(n as int)
                &&& final(self).pos_spec() == old(self).pos_spec() + n
            },
            n > old(self).remaining().len() ==> r is None && *final(self) == *old(self),
    {
        if n <= self.data.len() - self.pos {
            let s = slice_subrange(self.data, self.pos, self.pos + n);
            self.pos = self.pos + n;
            proof {
                assert(s@ =~= old(self).remaining().take(n as int));
                assert(self.remaining() =~= old(self).remaining().skip(n as int));
            }
            Some(s)
        } else {
            None
        }
    }

    /// Returns everything not yet consumed and moves the cursor to the end.
    pub fn skip_to_end(&mut self) -> (r: &'a [u8])
        requires
            old(self).wf(),
        ensures
            final(self).wf(),
            final(self).all_bytes() == old(self).all_bytes(),
            r@ == old(self).remaining(),
            final(self).remaining().len() == 0,
    {
        let s = slice_subrange(self.data, self.pos, self.data.len());
        self.pos = self.data.len();
        proof {
            assert(s@ =~= old(self).remaining());
            assert(self.remaining() =~= Seq::<u8>::empty());
        }
        s
    }
}

} // verus!

//! Splitting a byte sequence into fixed-size windows.
use vstd::prelude::*;

verus! {

/// Windows of `chunk_size` bytes over `data`; the last may be shorter.
pub struct Chunker {
    data: Vec<u8>,
    pos: usize,
    chunk_size: usize,
}

/// Windows of `chunk_size` bytes over `data`; the last is padded with `default`.
pub struct ChunkerDefault {
    data: Vec<u8>,
    pos: usize,
    chunk_size: usize,
    default: u8,
}

/// How many bytes the next window takes from `remaining`.
pub open spec fn window_len(remaining: nat, chunk_size: nat) -> nat {
    if remaining < chunk_size {
        remaining
    } else {
        chunk_size
    }
}

/// Takes the next `window_len` bytes of `data` from `pos`.
fn take_window(data: &Vec<u8>, pos: usize, chunk_size: usize) -> (r: Vec<u8>)
    requires
        pos <= data@.len(),
    ensures
        r@ == data@.subrange(pos as int, pos + window_len((data@.len() - pos) as nat, chunk_size as nat)),
{
    let n = if data.len() - pos < chunk_size {
        data.len() - pos
    } else {
        chunk_size
    };
    let len = data.len();
    let mut r: Vec<u8> = Vec::new();
    let mut i: usize = 0;
    while i < n
        invariant
            len == data@.len(),
            pos + n <= len,
            i <= n,
            r@ == data@.subrange(pos as int, pos + i),
        decreases n - i,
    {
        r.push(data[pos + i]);
        proof {
            assert(data@.subrange(pos as int, pos + i + 1) =~= data@.subrange(pos as int, pos + i).push(data@[pos + i]));
        }
        i = i + 1;
    }
    r
}

impl Chunker {
    #[verifier::type_invariant]
    spec fn in_range(&self) -> bool {
        self.pos <= self.data@.len() && self.chunk_size >= 1
    }

    /// The bytes not yet handed out.
    pub closed spec fn remaining(&self) -> Seq<u8> {
        self.data@.subrange(self.pos as int, self.data@.len() as int)
    }

    /// The window size.
    pub closed spec fn size(&self) -> nat {
        self.chunk_size as nat
    }

    pub fn new(data: Vec<u8>, chunk_size: usize) -> (r: Self)
        requires
            chunk_size >= 1,
        ensures
            r.remaining() == data@,
            r.size() == chunk_size,
    {
        let r = Chunker { data, pos: 0, chunk_size };
        proof {
            assert(r.remaining() =~= r.data@);
        }
        r
    }

    /// The next window: `None` once the data is used up, else the next `chunk_size` bytes, or
    /// what is left if that is less.
    pub fn next(&mut self) -> (r: Option<Vec<u8>>)
        ensures
            final(self).size() == old(self).size(),
            old(self).remaining().len() == 0 ==> (r is None && final(self).remaining() == old(self).remaining()),
            old(self).remaining().len() > 0 ==> (r matches Some(w) && {
                let n = window_len(old(self).remaining().len(), old(self).size());
                &&& w@ == old(self).remaining().subrange(0, n as int)
                &&& final(self).remaining() == old(self).remaining().subrange(n as int, old(self).remaining().len() as int)
            }),
    {
        proof {
            use_type_invariant(&*self);
        }
        if self.pos == self.data.len() {
            return None;
        }
        let w = take_window(&self.data, self.pos, self.chunk_size);
        let ghost before = self.remaining();
        self.pos = self.pos + w.len();
        proof {
            assert(w@ =~= before.subrange(0, w@.len() as int));
            assert(self.remaining() =~= before.subrange(w@.len() as int, before.len() as int));
        }
        Some(w)
    }
}

impl ChunkerDefault {
    #[verifier::type_invariant]
    spec fn in_range(&self) -> bool {
        self.pos <= self.data@.len() && self.chunk_size >= 1
    }

    /// The bytes not yet handed out.
    pub closed spec fn remaining(&self) -> Seq<u8> {
        self.data@.subrange(self.pos as int, self.data@.len() as int)
    }

    /// The window size.
    pub closed spec fn size(&self) -> nat {
        self.chunk_size as nat
    }

    /// The padding byte.
    pub closed spec fn padding(&self) -> u8 {
        self.default
    }

    pub fn new(data: Vec<u8>, chunk_size: usize, default: u8) -> (r: Self)
        requires
            chunk_size >= 1,
        ensures
            r.remaining() == data@,
            r.size() == chunk_size,
            r.padding() == default,
    {
        let r = ChunkerDefault { data, pos: 0, chunk_size, default };
        proof {
            assert(r.remaining() =~= r.data@);
        }
        r
    }

    /// The next window of exactly `chunk_size` bytes, padded with the default value at the end
    /// of the data; `None` once the data is used up.
    pub fn next(&mut self) -> (r: Option<Vec<u8>>)
        ensures
            final(self).size() == old(self).size(),
            final(self).padding() == old(self).padding(),
            old(self).remaining().len() == 0 ==> (r is None && final(self).remaining() == old(self).remaining()),
            old(self).remaining().len() > 0 ==> (r matches Some(w) && {
                let n = window_len(old(self).remaining().len(), old(self).size());
                &&& w@ == old(self).remaining().subrange(0, n as int) + Seq::new(
                    (old(self).size() - n) as nat,
                    |i: int| old(self).padding(),
                )
                &&& final(self).remaining() == old(self).remaining().subrange(n as int, old(self).remaining().len() as int)
            }),
    {
        proof {
            use_type_invariant(&*self);
        }
        if self.pos == self.data.len() {
            return None;
        }
        let mut w = take_window(&self.data, self.pos, self.chunk_size);
        let ghost before = self.remaining();
        let ghost taken = w@;
        self.pos = self.pos + w.len();
        let n = w.len();
        while w.len() < self.chunk_size
            invariant
                n <= self.chunk_size,
                n <= w@.len() <= self.chunk_size,
                w@ == taken + Seq::new((w@.len() - n) as nat, |i: int| self.default),
            decreases self.chunk_size - w@.len(),
        {
            w.push(self.default);
            proof {
                assert(taken + Seq::new((w@.len() - n) as nat, |i: int| self.default) =~= w@);
            }
        }
        proof {
            assert(taken =~= before.subrange(0, n as int));
            assert(self.remaining() =~= before.subrange(n as int, before.len() as int));
        }
        Some(w)
    }
}

/// Windows over a byte sequence.
pub trait ChunkerExt: Sized {
    /// The bytes the windows are taken from.
    spec fn contents(&self) -> Seq<u8>;

    /// Windows of `chunk_size` bytes; the last may be shorter.
    fn chunked(self, chunk_size: usize) -> (r: Chunker)
        requires
            chunk_size >= 1,
        ensures
            r.remaining() == self.contents(),
            r.size() == chunk_size,
    ;

    /// Windows of `chunk_size` bytes; the last is padded with `default`.
    fn chunked_with_default(self, chunk_size: usize, default: u8) -> (r: ChunkerDefault)
        requires
            chunk_size >= 1,
        ensures
            r.remaining() == self.contents(),
            r.size() == chunk_size,
            r.padding() == default,
    ;
}

impl ChunkerExt for Vec<u8> {
    open spec fn contents(&self) -> Seq<u8> {
        self@
    }

    fn chunked(self, chunk_size: usize) -> (r: Chunker) {
        Chunker::new(self, chunk_size)
    }

    fn chunked_with_default(self, chunk_size: usize, default: u8) -> (r: ChunkerDefault) {
        ChunkerDefault::new(self, chunk_size, default)
    }
}

} // verus!

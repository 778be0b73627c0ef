use crate::codec::common::SeaError;
use vstd::prelude::*;

verus! {

/// A read position in a stream of bytes.
///
/// The one variant borrows the bytes that are still unread.
pub enum Cursor<'inp> {
    Slice(&'inp [u8]),
}

impl<'inp> View for Cursor<'inp> {
    type V = Seq<u8>;

    /// The bytes that have not been read yet.
    open spec fn view(&self) -> Seq<u8> {
        match self {
            Cursor::Slice(data) => data@,
        }
    }
}

impl<'inp> Cursor<'inp> {
    /// A cursor at the start of `data`.
    pub fn from_slice(data: &'inp [u8]) -> (c: Self)
        ensures
            c@ == data@,
    {
        Cursor::Slice(data)
    }

    /// The number of unread bytes.
    pub fn remaining(&self) -> (n: usize)
        ensures
            n == self@.len(),
    {
        match self {
            Cursor::Slice(data) => data.len(),
        }
    }

    /// Fills `result` with the next bytes and moves past them.
    ///
    /// When fewer bytes are left than `result` holds, nothing is read and
    /// nothing is written.
    pub fn read_exact(&mut self, result: &mut [u8]) -> (r: Result<(), SeaError>)
        ensures
            final(result)@.len() == old(result)@.len(),
            old(self)@.len() < old(result)@.len() ==> r == Err::<(), SeaError>(SeaError::EndOfFile)
                && final(self)@ == old(self)@ && final(result)@ == old(result)@,
            old(self)@.len() >= old(result)@.len() ==> r == Ok::<(), SeaError>(())
                && final(result)@ == old(self)@.take(old(result)@.len() as int)
                && final(self)@ == old(self)@.skip(old(result)@.len() as int),
    {
        let n = result.len();
        match self {
            Cursor::Slice(data) => {
                if data.len() < n {
                    Err(SeaError::EndOfFile)
                } else {
                    let src: &'inp [u8] = *data;
                    let mut i: usize = 0;
                    while i < n
                        invariant
                            i <= n <= src@.len(),
                            result@.len() == n,
                            forall|j: int| 0 <= j < i ==> result@[j] == src@[j],
                        decreases n - i,
                    {
                        result[i] = src[i];
                        i += 1;
                    }
                    let rest = vstd::slice::slice_subrange(src, n, src.len());
                    *data = rest;
                    assert(result@ =~= old(self)@.take(n as int));
                    assert(rest@ =~= old(self)@.skip(n as int));
                    Ok(())
                }
            },
        }
    }

    /// Reads as many bytes as both `result` and the stream hold, into the
    /// front of `result`, and returns their number.
    pub fn read(&mut self, result: &mut [u8]) -> (r: Result<usize, SeaError>)
        ensures
            final(result)@.len() == old(result)@.len(),
            r is Ok,
            r->Ok_0 == if old(self)@.len() < old(result)@.len() {
                old(self)@.len()
            } else {
                old(result)@.len()
            },
            final(self)@ == old(self)@.skip(r->Ok_0 as int),
            final(result)@ == old(self)@.take(r->Ok_0 as int) + old(result)@.skip(r->Ok_0 as int),
    {
        let n = result.len();
        match self {
            Cursor::Slice(data) => {
                let src: &'inp [u8] = *data;
                let to_read = if src.len() < n {
                    src.len()
                } else {
                    n
                };
                let mut i: usize = 0;
                while i < to_read
                    invariant
                        i <= to_read <= src@.len(),
                        to_read <= n,
                        result@.len() == n,
                        forall|j: int| 0 <= j < i ==> result@[j] == src@[j],
                        forall|j: int| i <= j < n ==> result@[j] == old(result)@[j],
                    decreases to_read - i,
                {
                    result[i] = src[i];
                    i += 1;
                }
                let rest = vstd::slice::slice_subrange(src, to_read, src.len());
                *data = rest;
                assert(rest@ =~= old(self)@.skip(to_read as int));
                assert(result@ =~= old(self)@.take(to_read as int) + old(result)@.skip(
                    to_read as int,
                ));
                Ok(to_read)
            },
        }
    }
}

} // verus!

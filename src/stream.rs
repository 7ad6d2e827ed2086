//! Pull-based byte sources, push-based byte sinks, and the trimming copier
//! that runs between them.

use vstd::prelude::*;
use crate::newline::{lemma_trim_append, trailing_run, trim};
use crate::trimmer::Trimmer;

verus! {

/// Makes `std::io::Error` usable in signatures. It is opaque here: an error
/// from a source or sink is handed back to the caller without being read.
#[verifier::external_type_specification]
#[verifier::external_body]
pub struct ExIoError(std::io::Error);

/// A source of bytes that hands out its next chunk for inspection and is
/// then told how much of it was used.
pub trait ByteSource {
    /// The bytes not consumed yet.
    spec fn remaining(&self) -> Seq<u8>;

    /// This source never reports an error.
    spec fn is_reliable(&self) -> bool;

    /// The next chunk, without consuming it: a non-empty prefix of what
    /// remains, or empty exactly at the end of the input.
    fn fill_buf(&mut self) -> (r: Result<&[u8], std::io::Error>)
        ensures
            final(self).remaining() == old(self).remaining(),
            final(self).is_reliable() == old(self).is_reliable(),
            old(self).is_reliable() ==> r is Ok,
            r matches Ok(c) ==> c@.is_prefix_of(old(self).remaining()) && (c@.len() == 0
                <==> old(self).remaining().len() == 0),
    ;

    /// Advances past the first `n` remaining bytes.
    fn consume(&mut self, n: usize)
        requires
            n <= old(self).remaining().len(),
        ensures
            final(self).remaining() == old(self).remaining().skip(n as int),
            final(self).is_reliable() == old(self).is_reliable(),
    ;
}

/// A sink that bytes are appended to.
pub trait ByteSink {
    /// Everything appended so far.
    spec fn written(&self) -> Seq<u8>;

    /// This sink never reports an error.
    spec fn is_reliable(&self) -> bool;

    /// Appends all of `data`. On an error some prefix of it may have been
    /// appended.
    fn write_all(&mut self, data: &[u8]) -> (r: Result<(), std::io::Error>)
        ensures
            final(self).is_reliable() == old(self).is_reliable(),
            old(self).is_reliable() ==> r is Ok,
            r is Ok ==> final(self).written() == old(self).written() + data@,
            r is Err ==> exists|k: int|
                0 <= k <= data@.len() && final(self).written() == old(self).written()
                    + data@.take(k),
    ;

    /// Pushes buffered bytes on to their destination.
    fn flush(&mut self) -> (r: Result<(), std::io::Error>)
        ensures
            final(self).written() == old(self).written(),
            final(self).is_reliable() == old(self).is_reliable(),
            old(self).is_reliable() ==> r is Ok,
    ;
}

/// An in-memory source that hands out all that remains as one chunk.
impl<'a> ByteSource for &'a [u8] {
    open spec fn remaining(&self) -> Seq<u8> {
        self@
    }

    open spec fn is_reliable(&self) -> bool {
        true
    }

    fn fill_buf(&mut self) -> (r: Result<&[u8], std::io::Error>) {
        Ok(*self)
    }

    fn consume(&mut self, n: usize) {
        let s: &'a [u8] = *self;
        *self = s.split_at(n).1;
    }
}

/// An in-memory sink.
impl ByteSink for Vec<u8> {
    open spec fn written(&self) -> Seq<u8> {
        self@
    }

    open spec fn is_reliable(&self) -> bool {
        true
    }

    fn write_all(&mut self, data: &[u8]) -> (r: Result<(), std::io::Error>) {
        self.extend_from_slice(data);
        assert(self@ =~= old(self)@ + data@);
        Ok(())
    }

    fn flush(&mut self) -> (r: Result<(), std::io::Error>) {
        Ok(())
    }
}

/// An in-memory source that hands out at most `chunk_size` bytes at a time.
pub struct ChunkedSource<'a> {
    data: &'a [u8],
    chunk_size: usize,
}

impl<'a> ChunkedSource<'a> {
    #[verifier::type_invariant]
    closed spec fn chunk_size_positive(&self) -> bool {
        self.chunk_size >= 1
    }

    /// The chunk size this source was made with.
    pub closed spec fn spec_chunk_size(&self) -> nat {
        self.chunk_size as nat
    }

    /// A source over `data` that delivers it in chunks of `chunk_size` bytes
    /// (the last one possibly shorter).
    pub fn new(data: &'a [u8], chunk_size: usize) -> (r: Self)
        requires
            chunk_size >= 1,
        ensures
            r.remaining() == data@,
            r.spec_chunk_size() == chunk_size,
    {
        ChunkedSource { data, chunk_size }
    }
}

impl<'a> ByteSource for ChunkedSource<'a> {
    closed spec fn remaining(&self) -> Seq<u8> {
        self.data@
    }

    open spec fn is_reliable(&self) -> bool {
        true
    }

    fn fill_buf(&mut self) -> (r: Result<&[u8], std::io::Error>) {
        proof {
            use_type_invariant(&*self);
        }
        let len = self.data.len();
        let size = if self.chunk_size < len {
            self.chunk_size
        } else {
            len
        };
        let (head, _) = self.data.split_at(size);
        Ok(head)
    }

    fn consume(&mut self, n: usize) {
        proof {
            use_type_invariant(&*self);
        }
        let s: &'a [u8] = self.data;
        self.data = s.split_at(n).1;
    }
}

/// Copies `i` to `o` without the maximal run of `\n` / `\r` bytes at the
/// end of the input; interior newline bytes, and newline runs followed by
/// more content, are copied unchanged. The input is read chunk by chunk;
/// only the newline bytes that may turn out to be trailing are held back.
/// The sink is flushed at the end. The first error from either side ends
/// the copy and is returned as it came; what was written by then stays
/// written, and is a prefix of the full result.
pub fn snickerdoodle<R: ByteSource, W: ByteSink>(i: R, o: &mut W) -> (r: Result<(), std::io::Error>)
    ensures
        r is Ok ==> final(o).written() == old(o).written() + trim(i.remaining()),
        r is Err ==> exists|k: int|
            0 <= k <= trim(i.remaining()).len() && final(o).written() == old(o).written() + trim(
                i.remaining(),
            ).take(k),
        i.is_reliable() && old(o).is_reliable() ==> r is Ok,
{
    let ghost input = i.remaining();
    let ghost start = o.written();
    let mut src = i;
    let mut pending = Trimmer::new();
    let mut ready: Vec<u8> = Vec::new();
    let ghost mut consumed: Seq<u8> = Seq::empty();
    proof {
        assert(trim(consumed) =~= Seq::<u8>::empty());
        assert(consumed + input =~= input);
    }
    loop
        invariant
            input == i.remaining(),
            start == old(o).written(),
            consumed + src.remaining() == input,
            o.written() == start + trim(consumed),
            pending.wf(),
            pending@ == trailing_run(consumed),
            src.is_reliable() == i.is_reliable(),
            o.is_reliable() == old(o).is_reliable(),
        ensures
            consumed == input,
            o.written() == start + trim(consumed),
            o.is_reliable() == old(o).is_reliable(),
        decreases src.remaining().len(),
    {
        let ghost before = src.remaining();
        let chunk = match src.fill_buf() {
            Ok(c) => c,
            Err(e) => {
                proof {
                    lemma_trim_append(consumed, before);
                    let m = trim(consumed).len() as int;
                    assert(trim(consumed) =~= trim(input).take(m));
                    assert(o.written() == start + trim(input).take(m));
                }
                return Err(e);
            },
        };
        let n = chunk.len();
        if n == 0 {
            proof {
                assert(consumed =~= input);
            }
            break;
        }
        ready.clear();
        pending.push(chunk, &mut ready);
        let ghost rest = src.remaining().skip(n as int);
        proof {
            lemma_trim_append(consumed, chunk@);
            assert(consumed + chunk@ + rest =~= input);
            lemma_trim_append(consumed + chunk@, rest);
        }
        if ready.len() > 0 {
            match o.write_all(ready.as_slice()) {
                Ok(()) => {},
                Err(e) => {
                    proof {
                        let k = choose|k: int|
                            0 <= k <= ready@.len() && o.written() == start + trim(consumed)
                                + ready@.take(k);
                        let m = trim(consumed).len() + k;
                        assert(trim(consumed) + ready@.take(k) =~= trim(input).take(m));
                        assert(o.written() == start + trim(input).take(m));
                    }
                    return Err(e);
                },
            }
        }
        src.consume(n);
        proof {
            assert(o.written() =~= start + trim(consumed + chunk@));
            consumed = consumed + chunk@;
            assert(consumed + src.remaining() =~= input);
        }
    }
    let r = o.flush();
    proof {
        assert(trim(input).take(trim(input).len() as int) =~= trim(input));
    }
    r
}

} // verus!

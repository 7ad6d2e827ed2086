//! The pending newline buffer: the state that lets the trailing trim run one
//! chunk at a time, without knowing which chunk is the last.

use vstd::prelude::*;
use crate::newline::{
    all_newlines, last_not_newline, lemma_trim_append, lemma_trim_shape, lemma_trim_unique,
    trailing_run, trim,
};

verus! {

/// Newline bytes read since the last byte outside the newline class was
/// emitted. They are emitted only once a later byte shows they are interior.
pub struct Trimmer {
    pending: Vec<u8>,
}

impl View for Trimmer {
    type V = Seq<u8>;

    closed spec fn view(&self) -> Seq<u8> {
        self.pending@
    }
}

impl Trimmer {
    /// The buffer holds newline-class bytes only.
    pub closed spec fn wf(&self) -> bool {
        all_newlines(self.pending@)
    }

    /// A trimmer with nothing pending.
    pub fn new() -> (t: Self)
        ensures
            t.wf(),
            t@ == Seq::<u8>::empty(),
    {
        Trimmer { pending: Vec::new() }
    }

    /// The number of bytes held back.
    pub fn pending_len(&self) -> (r: usize)
        ensures
            r == self@.len(),
    {
        self.pending.len()
    }

    /// Takes the next chunk: appends to `out` what is now known not to be
    /// trailing, which is the trim of the pending bytes followed by `chunk`,
    /// and keeps the trailing newline run of that as the new pending bytes.
    pub fn push(&mut self, chunk: &[u8], out: &mut Vec<u8>)
        requires
            old(self).wf(),
        ensures
            final(self).wf(),
            final(out)@ == old(out)@ + trim(old(self)@ + chunk@),
            final(self)@ == trailing_run(old(self)@ + chunk@),
    {
        let ghost joined = self.pending@ + chunk@;
        match last_not_newline(chunk) {
            None => {
                self.pending.extend_from_slice(chunk);
                proof {
                    assert(self.pending@ =~= joined);
                    assert(joined.skip(0) =~= joined);
                    lemma_trim_unique(joined, 0);
                    assert(out@ =~= old(out)@ + trim(joined));
                }
            },
            Some(p) => {
                let ghost before = self.pending@;
                let len = chunk.len();
                assert(p + 1 <= len);
                out.extend_from_slice(self.pending.as_slice());
                self.pending.clear();
                let (head, tail) = chunk.split_at(p + 1);
                out.extend_from_slice(head);
                self.pending.extend_from_slice(tail);
                proof {
                    let n = before.len() + p + 1;
                    assert(joined.skip(n) =~= chunk@.skip(p + 1));
                    assert(joined[n - 1] == chunk@[p as int]);
                    lemma_trim_unique(joined, n);
                    assert(joined.take(n) =~= before + head@);
                    assert(out@ =~= old(out)@ + trim(joined));
                    assert(self.pending@ =~= trailing_run(joined));
                }
            },
        }
    }
}

/// The bytes held back by a trimmer that started empty and took `chunks` in
/// order, as `Trimmer::push` describes each step.
pub open spec fn pending_after(chunks: Seq<Seq<u8>>) -> Seq<u8>
    decreases chunks.len(),
{
    if chunks.len() == 0 {
        Seq::empty()
    } else {
        trailing_run(pending_after(chunks.drop_last()) + chunks.last())
    }
}

/// The bytes emitted by a trimmer that started empty and took `chunks` in
/// order, as `Trimmer::push` describes each step.
pub open spec fn emitted_after(chunks: Seq<Seq<u8>>) -> Seq<u8>
    decreases chunks.len(),
{
    if chunks.len() == 0 {
        Seq::empty()
    } else {
        emitted_after(chunks.drop_last()) + trim(pending_after(chunks.drop_last()) + chunks.last())
    }
}

/// However the input is cut into chunks, a trimmer emits the trim of the
/// whole input and holds back exactly its trailing newline run.
pub proof fn lemma_chunking_independent(chunks: Seq<Seq<u8>>)
    ensures
        emitted_after(chunks) == trim(chunks.flatten()),
        pending_after(chunks) == trailing_run(chunks.flatten()),
    decreases chunks.len(),
{
    broadcast use Seq::lemma_flatten_push;

    if chunks.len() == 0 {
        assert(trim(Seq::<u8>::empty()) == Seq::<u8>::empty());
    } else {
        let front = chunks.drop_last();
        lemma_chunking_independent(front);
        assert(front.push(chunks.last()) =~= chunks);
        assert(chunks.flatten() == front.flatten() + chunks.last());
        lemma_trim_append(front.flatten(), chunks.last());
    }
}

/// No run of newline-class bytes in `s` is longer than `n`.
pub open spec fn newline_runs_at_most(s: Seq<u8>, n: nat) -> bool {
    forall|i: int, j: int|
        0 <= i <= j <= s.len() && all_newlines(#[trigger] s.subrange(i, j)) ==> j - i <= n
}

/// The bytes held back never outnumber the longest newline run of the input
/// read so far, however long that input and however it was cut into chunks.
pub proof fn lemma_pending_bounded(chunks: Seq<Seq<u8>>, n: nat)
    requires
        newline_runs_at_most(chunks.flatten(), n),
    ensures
        pending_after(chunks).len() <= n,
{
    let s = chunks.flatten();
    lemma_chunking_independent(chunks);
    lemma_trim_shape(s);
    let t = trim(s).len() as int;
    assert(s.subrange(t, s.len() as int) =~= trailing_run(s));
}

} // verus!

//! The newline class and the trailing trim, as mathematical functions on
//! byte sequences, with the facts about them that the copier relies on.

use vstd::prelude::*;

verus! {

/// A byte of the newline class: `\n` (0x0A) or `\r` (0x0D).
pub open spec fn is_newline_byte(b: u8) -> bool {
    b == 0x0Au8 || b == 0x0Du8
}

/// Every byte of `s` is of the newline class.
pub open spec fn all_newlines(s: Seq<u8>) -> bool {
    forall|i: int| 0 <= i < s.len() ==> #[trigger] is_newline_byte(s[i])
}

/// `s` without its maximal suffix of newline-class bytes.
pub open spec fn trim(s: Seq<u8>) -> Seq<u8>
    decreases s.len(),
{
    if s.len() > 0 && is_newline_byte(s.last()) {
        trim(s.drop_last())
    } else {
        s
    }
}

/// The maximal suffix of `s` made of newline-class bytes: what `trim` removes.
pub open spec fn trailing_run(s: Seq<u8>) -> Seq<u8> {
    s.skip(trim(s).len() as int)
}

/// Tells whether `b` is `\n` or `\r`.
pub fn is_newline(b: u8) -> (r: bool)
    ensures
        r == is_newline_byte(b),
{
    b == 0x0Du8 || b == 0x0Au8
}

/// The position of the last byte of `buf` outside the newline class, or
/// `None` when every byte of `buf` is `\n` or `\r`.
pub fn last_not_newline(buf: &[u8]) -> (r: Option<usize>)
    ensures
        r is None <==> all_newlines(buf@),
        r is None ==> trim(buf@).len() == 0,
        r matches Some(p) ==> p < buf@.len() && !is_newline_byte(buf@[p as int]) && all_newlines(
            buf@.skip(p + 1),
        ) && trim(buf@) == buf@.take(p + 1),
{
    let mut k: usize = buf.len();
    while k > 0
        invariant
            k <= buf@.len(),
            all_newlines(buf@.skip(k as int)),
        decreases k,
    {
        if !is_newline(buf[k - 1]) {
            proof {
                lemma_trim_unique(buf@, k as int);
            }
            return Some(k - 1);
        }
        assert(buf@.skip(k - 1) =~= seq![buf@[k - 1]] + buf@.skip(k as int));
        k = k - 1;
    }
    assert(buf@.skip(0) =~= buf@);
    proof {
        lemma_trim_unique(buf@, 0);
    }
    None
}

/// What `trim` keeps is a prefix of `s`; what it drops is all newline bytes;
/// and what it keeps is empty or ends in a byte outside the class.
pub proof fn lemma_trim_shape(s: Seq<u8>)
    ensures
        trim(s).len() <= s.len(),
        trim(s) == s.take(trim(s).len() as int),
        all_newlines(trailing_run(s)),
        trim(s).len() == 0 || !is_newline_byte(trim(s).last()),
    decreases s.len(),
{
    if s.len() > 0 && is_newline_byte(s.last()) {
        lemma_trim_shape(s.drop_last());
        let n = trim(s).len() as int;
        assert(s.drop_last().take(n) =~= s.take(n));
        assert forall|i: int| 0 <= i < trailing_run(s).len() implies #[trigger] is_newline_byte(
            trailing_run(s)[i],
        ) by {
            if n + i < s.len() - 1 {
                assert(trailing_run(s)[i] == trailing_run(s.drop_last())[i]);
            }
        }
    } else {
        assert(s.take(s.len() as int) =~= s);
        assert(trailing_run(s).len() == 0);
    }
}

/// `trim` is pinned down by its shape: a prefix `s[..n]` such that the rest
/// is all newline bytes and `s[n-1]`, if any, is not one.
pub proof fn lemma_trim_unique(s: Seq<u8>, n: int)
    requires
        0 <= n <= s.len(),
        all_newlines(s.skip(n)),
        n == 0 || !is_newline_byte(s[n - 1]),
    ensures
        trim(s) == s.take(n),
    decreases s.len(),
{
    if s.len() > 0 && is_newline_byte(s.last()) {
        if n == s.len() {
            assert(is_newline_byte(s[n - 1]));
        }
        let t = s.drop_last();
        assert forall|i: int| 0 <= i < t.skip(n).len() implies #[trigger] is_newline_byte(
            t.skip(n)[i],
        ) by {
            assert(t.skip(n)[i] == s.skip(n)[i]);
        }
        lemma_trim_unique(t, n);
        assert(t.take(n) =~= s.take(n));
    } else {
        if n < s.len() {
            assert(s.skip(n)[s.len() - n - 1] == s.last());
        }
        assert(s.take(n) =~= s);
    }
}

/// Trimming twice is trimming once.
pub proof fn lemma_trim_idempotent(s: Seq<u8>)
    ensures
        trim(trim(s)) == trim(s),
{
    lemma_trim_shape(s);
    let t = trim(s);
    assert(t.skip(t.len() as int).len() == 0);
    lemma_trim_unique(t, t.len() as int);
    assert(t.take(t.len() as int) =~= t);
}

/// The result of a trim is empty or ends in a byte outside the newline class.
pub proof fn lemma_trim_no_trailing_newline(s: Seq<u8>)
    ensures
        trim(s).len() == 0 || !is_newline_byte(trim(s).last()),
{
    lemma_trim_shape(s);
}

/// Interior newline runs pass through unchanged: the result is a prefix of
/// `s` that reaches past every byte outside the newline class, so each byte
/// that comes before such a byte keeps its value and its position.
pub proof fn lemma_trim_keeps_interior(s: Seq<u8>)
    ensures
        trim(s).is_prefix_of(s),
        forall|j: int| 0 <= j < s.len() && !is_newline_byte(#[trigger] s[j]) ==> j < trim(s).len(),
{
    lemma_trim_shape(s);
    let n = trim(s).len() as int;
    assert forall|j: int| 0 <= j < s.len() && !is_newline_byte(#[trigger] s[j]) implies j < n by {
        if j >= n {
            assert(trailing_run(s)[j - n] == s[j]);
        }
    }
}

/// `s` is what `trim` keeps followed by what it drops.
pub proof fn lemma_trim_split(s: Seq<u8>)
    ensures
        s == trim(s) + trailing_run(s),
{
    lemma_trim_shape(s);
    assert(s =~= trim(s) + trailing_run(s));
}

/// Trimming `s + c` can be done from what trimming `s` left pending: the kept
/// part of `s`, followed by the trim of its trailing run with `c` appended;
/// and the new trailing run is that of the pending run with `c` appended.
pub proof fn lemma_trim_append(s: Seq<u8>, c: Seq<u8>)
    ensures
        trim(s + c) == trim(s) + trim(trailing_run(s) + c),
        trailing_run(s + c) == trailing_run(trailing_run(s) + c),
{
    let t = trim(s);
    let p = trailing_run(s);
    let q = p + c;
    let u = trim(q);
    lemma_trim_shape(s);
    lemma_trim_shape(q);
    lemma_trim_split(s);
    let x = s + c;
    assert(x =~= t + q);
    let n = (t.len() + u.len()) as int;
    assert forall|i: int| 0 <= i < x.skip(n).len() implies #[trigger] is_newline_byte(
        x.skip(n)[i],
    ) by {
        assert(x.skip(n)[i] == trailing_run(q)[i]);
    }
    if u.len() > 0 {
        assert(x[n - 1] == u.last());
    } else if t.len() > 0 {
        assert(x[n - 1] == t.last());
    }
    lemma_trim_unique(x, n);
    assert(x.take(n) =~= t + u);
    assert(x.skip(n) =~= q.skip(u.len() as int));
}

} // verus!

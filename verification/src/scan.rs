//! Aligned tag scanner: offsets of every 4-byte-aligned occurrence of a
//! 4-byte needle inside a byte buffer.

use vstd::prelude::*;

verus! {

/// The offsets, in ascending order, of every window of 4 bytes that starts
/// at or after position `p`, keeps `p`'s alignment (positions are probed in
/// strides of exactly 4 bytes), lies entirely inside `b`, and equals the
/// needle `n`.
pub open spec fn matches_from(b: Seq<u8>, n: Seq<u8>, p: int) -> Seq<int>
    decreases b.len() - p,
    when 0 <= p
{
    if p + 4 > b.len() {
        Seq::empty()
    } else if b.subrange(p, p + 4) == n {
        seq![p] + matches_from(b, n, p + 4)
    } else {
        matches_from(b, n, p + 4)
    }
}

/// A non-restartable scanner over `haystack` that yields, one per call to
/// [`Data::next`], the offsets of the aligned occurrences of `needle`.
pub struct Data<'a> {
    haystack: &'a Vec<u8>,
    needle: &'a [u8],
    curr: usize,
}

impl<'a> Data<'a> {
    /// The buffer being scanned.
    pub closed spec fn buf(self) -> Seq<u8> {
        self.haystack@
    }

    /// The needle being searched for.
    pub closed spec fn pat(self) -> Seq<u8> {
        self.needle@
    }

    /// The position the scan has reached.
    pub closed spec fn pos(self) -> int {
        self.curr as int
    }

    /// The scanner's cursor never leaves the 4-byte grid.
    pub closed spec fn wf(self) -> bool {
        self.curr % 4 == 0
    }

    /// The offsets this scanner has yet to yield.
    pub open spec fn remaining(self) -> Seq<int> {
        matches_from(self.buf(), self.pat(), self.pos())
    }

    /// Yield the next aligned occurrence of the needle, or `None` once no
    /// further occurrence exists.  Buffers with fewer than 4 bytes left
    /// (in particular buffers shorter than 4 bytes) yield nothing.
    pub fn next(&mut self) -> (r: Option<usize>)
        requires
            old(self).wf(),
        ensures
            final(self).wf(),
            final(self).buf() == old(self).buf(),
            final(self).pat() == old(self).pat(),
            match r {
                Some(p) => {
                    &&& old(self).remaining().len() > 0
                    &&& p as int == old(self).remaining()[0]
                    &&& final(self).remaining() == old(self).remaining().drop_first()
                    &&& p % 4 == 0
                    &&& old(self).pos() <= p
                    &&& p + 4 <= old(self).buf().len()
                    &&& old(self).buf().subrange(p as int, p as int + 4) == old(self).pat()
                }
                None => {
                    &&& old(self).remaining().len() == 0
                    &&& final(self).remaining().len() == 0
                }
            },
    {
        let n_len = self.haystack.len();
        if n_len < 4 {
            return None;
        }
        while self.curr <= n_len - 4
            invariant
                self.haystack@ == old(self).haystack@,
                self.needle@ == old(self).needle@,
                self.curr % 4 == 0,
                old(self).curr <= self.curr,
                n_len == self.haystack@.len(),
                n_len >= 4,
                matches_from(self.haystack@, self.needle@, self.curr as int)
                    == matches_from(old(self).haystack@, old(self).needle@, old(self).curr as int),
            decreases n_len - self.curr,
        {
            let p = self.curr;
            let window_eq = self.needle.len() == 4
                && self.haystack[p] == self.needle[0]
                && self.haystack[p + 1] == self.needle[1]
                && self.haystack[p + 2] == self.needle[2]
                && self.haystack[p + 3] == self.needle[3];
            proof {
                if window_eq {
                    assert(self.haystack@.subrange(p as int, p as int + 4) =~= self.needle@);
                } else {
                    assert(self.haystack@.subrange(p as int, p as int + 4) != self.needle@)
                    by {
                        if self.haystack@.subrange(p as int, p as int + 4) == self.needle@ {
                            assert(self.haystack@[p as int]
                                == self.haystack@.subrange(p as int, p as int + 4)[0]);
                            assert(self.haystack@[p as int + 1]
                                == self.haystack@.subrange(p as int, p as int + 4)[1]);
                            assert(self.haystack@[p as int + 2]
                                == self.haystack@.subrange(p as int, p as int + 4)[2]);
                            assert(self.haystack@[p as int + 3]
                                == self.haystack@.subrange(p as int, p as int + 4)[3]);
                        }
                    }
                }
            }
            self.curr = p + 4;
            if window_eq {
                proof {
                    assert(matches_from(self.haystack@, self.needle@, p as int)
                        == seq![p as int] + matches_from(self.haystack@, self.needle@, p as int + 4));
                    assert((seq![p as int]
                        + matches_from(self.haystack@, self.needle@, p as int + 4)).drop_first()
                        =~= matches_from(self.haystack@, self.needle@, p as int + 4));
                }
                return Some(p);
            }
        }
        None
    }
}

/// Build a scanner for the 4-byte-aligned occurrences of `n` (as UTF-8
/// bytes) inside `h`, starting from the beginning of the buffer.
pub fn find_aligned_str<'a>(h: &'a Vec<u8>, n: &'a str) -> (r: Data<'a>)
    ensures
        r.wf(),
        r.buf() == h@,
        r.pat() == vstd::utf8::encode_utf8(n@),
        r.pos() == 0,
{
    Data { haystack: h, needle: n.as_bytes(), curr: 0 }
}

/// A buffer shorter than 4 bytes holds no complete window, so a scan of it
/// yields no offset at all.
pub proof fn lemma_short_buffer_scan(b: Seq<u8>, n: Seq<u8>, p: int)
    requires
        b.len() < 4,
        0 <= p,
    ensures
        matches_from(b, n, p).len() == 0,
{
}

/// Every offset a scan yields is a complete, matching window on the same
/// 4-byte grid as the scan's starting position, and the offsets come in
/// strictly ascending order.
pub proof fn lemma_matches_sound(b: Seq<u8>, n: Seq<u8>, p: int)
    requires
        0 <= p,
    ensures
        forall|k: int| 0 <= k < matches_from(b, n, p).len() ==> {
            let q = #[trigger] matches_from(b, n, p)[k];
            &&& q % 4 == p % 4
            &&& p <= q
            &&& q + 4 <= b.len()
            &&& b.subrange(q, q + 4) == n
        },
        forall|k1: int, k2: int|
            0 <= k1 < k2 < matches_from(b, n, p).len()
                ==> #[trigger] matches_from(b, n, p)[k1] < #[trigger] matches_from(b, n, p)[k2],
    decreases b.len() - p,
{
    if p + 4 > b.len() {
    } else {
        lemma_matches_sound(b, n, p + 4);
        assert((p + 4) % 4 == p % 4) by (nonlinear_arith);
        let rest = matches_from(b, n, p + 4);
        if b.subrange(p, p + 4) == n {
            let whole = seq![p] + rest;
            assert(matches_from(b, n, p) == whole);
            assert forall|k: int| 0 <= k < whole.len() implies {
                let q = #[trigger] whole[k];
                &&& q % 4 == p % 4
                &&& p <= q
                &&& q + 4 <= b.len()
                &&& b.subrange(q, q + 4) == n
            } by {
                if k > 0 {
                    assert(whole[k] == rest[k - 1]);
                }
            }
            assert forall|k1: int, k2: int| 0 <= k1 < k2 < whole.len()
                implies #[trigger] whole[k1] < #[trigger] whole[k2] by {
                assert(whole[k2] == rest[k2 - 1]);
                if k1 > 0 {
                    assert(whole[k1] == rest[k1 - 1]);
                }
            }
        } else {
            assert(matches_from(b, n, p) == rest);
        }
    }
}

/// Every complete, matching window on the scan's 4-byte grid is yielded:
/// nothing on the grid is skipped.
pub proof fn lemma_matches_complete(b: Seq<u8>, n: Seq<u8>, p: int, q: int)
    requires
        0 <= p <= q,
        q % 4 == p % 4,
        q + 4 <= b.len(),
        b.subrange(q, q + 4) == n,
    ensures
        matches_from(b, n, p).contains(q),
    decreases b.len() - p,
{
    if p == q {
        assert(matches_from(b, n, p)[0] == q);
    } else {
        assert((p + 4) % 4 == p % 4) by (nonlinear_arith);
        assert(p + 4 <= q) by (nonlinear_arith)
            requires p < q, q % 4 == p % 4;
        lemma_matches_complete(b, n, p + 4, q);
        let i = choose|i: int|
            0 <= i < matches_from(b, n, p + 4).len()
                && #[trigger] matches_from(b, n, p + 4)[i] == q;
        if b.subrange(p, p + 4) == n {
            assert(matches_from(b, n, p)[i + 1] == q);
        } else {
            assert(matches_from(b, n, p)[i] == q);
        }
    }
}

/// A needle that occurs nowhere on the 4-byte grid is never reported, even
/// if it occurs at unaligned positions: alignment is enforced, not
/// incidental.
pub proof fn lemma_unaligned_needle_not_found(b: Seq<u8>, n: Seq<u8>)
    requires
        forall|q: int|
            0 <= q && q % 4 == 0 && q + 4 <= b.len()
                ==> #[trigger] b.subrange(q, q + 4) != n,
    ensures
        matches_from(b, n, 0).len() == 0,
{
    lemma_matches_sound(b, n, 0);
    if matches_from(b, n, 0).len() > 0 {
        let q = matches_from(b, n, 0)[0];
    }
}

} // verus!

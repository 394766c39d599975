//! GPIO record decoder: walks the record table of the signal map and yields
//! one `GpioDesc` per record until the end-of-table byte, a missing
//! terminator, or the end of the buffer stops it.

use vstd::prelude::*;
use crate::text::{decode_lossy, trim_spec, trim_str, utf8_lossy};

verus! {

/// The byte whose appearance in the lookahead slot ends the table: `'>'`,
/// the character that closes the enclosing device-tree property value.
pub const END_TAG: u8 = 0x3e;

/// One decoded record: a GPIO number and its textual description.
#[derive(PartialEq, Eq, PartialOrd, Ord, Debug)]
pub struct GpioDesc {
    pub gpio: u8,
    pub desc: String,
}

impl View for GpioDesc {
    type V = (u8, Seq<char>);

    open spec fn view(&self) -> (u8, Seq<char>) {
        (self.gpio, self.desc@)
    }
}

/// The views of a sequence of records.
pub open spec fn views_of(s: Seq<GpioDesc>) -> Seq<(u8, Seq<char>)> {
    s.map_values(|g: GpioDesc| g@)
}

/// `n` rounded up to the next multiple of 4.
pub open spec fn pad4(n: int) -> int {
    ((n + 3) / 4) * 4
}

/// The index, relative to `start`, of the first zero byte of `b` at
/// `start` or after, if one lies within the 32-byte scan window and within
/// the buffer; scanning from relative index `i`.
pub open spec fn desc_scan(b: Seq<u8>, start: int, i: int) -> Option<int>
    decreases 32 - i,
    when i <= 32
{
    if i >= 32 {
        None
    } else if start + i >= b.len() {
        None
    } else if b[start + i] == 0 {
        Some(i)
    } else {
        desc_scan(b, start, i + 1)
    }
}

/// The length of the description that starts at `start`: the distance to
/// the first zero byte, if one lies within the 32-byte window and the
/// buffer.
pub open spec fn desc_len_at(b: Seq<u8>, start: int) -> Option<int> {
    desc_scan(b, start, 0)
}

/// The raw description bytes of the record at `curr`, excluding the
/// terminating zero.  Meaningful only where `desc_len_at` finds one.
pub open spec fn raw_desc(b: Seq<u8>, curr: int) -> Seq<u8> {
    b.subrange(curr + 4, curr + 4 + desc_len_at(b, curr + 4)->0)
}

/// The description of the record at `curr` as decoded characters, before
/// trimming.
pub open spec fn decoded_desc(b: Seq<u8>, curr: int) -> Seq<char> {
    utf8_lossy(raw_desc(b, curr))
}

/// How far past the gpio slot the cursor advances for the record at
/// `curr`: the byte length of the decoded description, rounded up to a
/// multiple of 4.
pub open spec fn desc_advance(b: Seq<u8>, curr: int) -> int {
    pad4(vstd::utf8::encode_utf8(decoded_desc(b, curr)).len() as int)
}

/// Where the record after the one at `curr` starts.
pub open spec fn rec_next(b: Seq<u8>, curr: int) -> int {
    curr + 4 + desc_advance(b, curr)
}

/// True when no record is decoded at `curr`: the lookahead byte at
/// `curr + 12` would fall outside the buffer, or it is the end-of-table
/// byte, or no zero terminator lies within the 32-byte scan window and the
/// buffer, or the cursor advance would not fit a `usize`.
pub open spec fn decode_ends(b: Seq<u8>, curr: int) -> bool {
    ||| curr + 13 > b.len()
    ||| b[curr + 12] == END_TAG
    ||| desc_len_at(b, curr + 4) is None
    ||| rec_next(b, curr) > usize::MAX
}

/// The record decoded at `curr`: the gpio byte, and the description
/// decoded lossily and trimmed.
pub open spec fn rec_out(b: Seq<u8>, curr: int) -> (u8, Seq<char>) {
    (b[curr], trim_spec(decoded_desc(b, curr)))
}

/// A decreasing bound on how much table is left to decode from `curr`.
pub open spec fn decode_measure(b: Seq<u8>, curr: int) -> int {
    if curr <= b.len() + 12 {
        b.len() + 12 - curr
    } else {
        0
    }
}

/// All records decoded from `curr` on, in buffer order.
pub open spec fn decoded_records(b: Seq<u8>, curr: int) -> Seq<(u8, Seq<char>)>
    decreases decode_measure(b, curr),
    when 0 <= curr
{
    if decode_ends(b, curr) {
        Seq::empty()
    } else {
        seq![rec_out(b, curr)] + decoded_records(b, rec_next(b, curr))
    }
}

/// A non-restartable decoder that yields, one per call to [`Gpio::next`],
/// the records of the table that starts at its cursor.
pub struct Gpio<'a> {
    haystack: &'a Vec<u8>,
    curr: usize,
}

proof fn lemma_desc_scan_some(b: Seq<u8>, start: int, i: int)
    requires
        0 <= i <= 32,
        desc_scan(b, start, i) is Some,
    ensures
        i <= desc_scan(b, start, i)->0 < 32,
        start + desc_scan(b, start, i)->0 < b.len(),
        b[start + desc_scan(b, start, i)->0] == 0,
    decreases 32 - i,
{
    if i >= 32 {
    } else if start + i >= b.len() {
    } else if b[start + i] == 0 {
    } else {
        lemma_desc_scan_some(b, start, i + 1);
    }
}

proof fn lemma_pad4(n: int)
    requires
        0 <= n,
    ensures
        pad4(n) == n + (if n % 4 == 0 { 0int } else { 4 - n % 4 }),
        n <= pad4(n) < n + 4,
        pad4(n) % 4 == 0,
{
    assert(pad4(n) == n + (if n % 4 == 0 { 0int } else { 4 - n % 4 })
        && n <= pad4(n) < n + 4 && pad4(n) % 4 == 0) by (nonlinear_arith)
        requires 0 <= n;
}

impl<'a> Gpio<'a> {
    /// The buffer being decoded.
    pub closed spec fn buf(self) -> Seq<u8> {
        self.haystack@
    }

    /// The position of the record the next call will look at.
    pub closed spec fn pos(self) -> int {
        self.curr as int
    }

    /// Where the decoder's cursor stands.
    pub fn position(&self) -> (r: usize)
        ensures
            r == self.pos(),
    {
        self.curr
    }

    /// Decode the record at the cursor and advance past it, or yield
    /// `None`, leaving the cursor in place, once the table has ended.
    pub fn next(&mut self) -> (r: Option<GpioDesc>)
        ensures
            final(self).buf() == old(self).buf(),
            match r {
                Some(g) => {
                    &&& !decode_ends(old(self).buf(), old(self).pos())
                    &&& g@ == rec_out(old(self).buf(), old(self).pos())
                    &&& final(self).pos() == rec_next(old(self).buf(), old(self).pos())
                }
                None => {
                    &&& decode_ends(old(self).buf(), old(self).pos())
                    &&& final(self).pos() == old(self).pos()
                }
            },
    {
        let ghost b = self.haystack@;
        let ghost c0 = self.curr as int;
        let len = self.haystack.len();
        let c = self.curr;
        if len < 13 || c > len - 13 {
            return None;
        }
        if self.haystack[c + 12] == END_TAG {
            return None;
        }
        let g_val = self.haystack[c];
        let base = c + 4;

        let mut i: usize = 0;
        let mut d_found = false;
        let mut d_len: usize = 0;
        loop
            invariant_except_break
                !d_found,
            invariant
                b == self.haystack@,
                base == c0 + 4,
                base + 9 <= len,
                len == b.len(),
                i <= 32,
                desc_scan(b, base as int, 0) == desc_scan(b, base as int, i as int),
            ensures
                b == self.haystack@,
                if d_found {
                    desc_len_at(b, base as int) == Some(d_len as int)
                        && base + d_len < len
                        && b[base + d_len] == 0
                        && d_len < 32
                } else {
                    desc_len_at(b, base as int) is None
                },
            decreases 32 - i,
        {
            if i >= 32 {
                break;
            }
            if i >= len - base {
                break;
            }
            if self.haystack[base + i] == 0 {
                d_found = true;
                d_len = i;
                break;
            }
            i = i + 1;
        }
        if !d_found {
            return None;
        }

        let mut raw: Vec<u8> = Vec::new();
        let mut j: usize = 0;
        while j < d_len
            invariant
                b == self.haystack@,
                base + d_len < len,
                len == b.len(),
                j <= d_len,
                raw@ == b.subrange(base as int, base as int + j as int),
            decreases d_len - j,
        {
            raw.push(self.haystack[base + j]);
            proof {
                assert(raw@ =~= b.subrange(base as int, base as int + j as int + 1));
            }
            j = j + 1;
        }
        proof {
            assert(raw@ == raw_desc(b, c0));
        }

        let decoded = decode_lossy(raw.as_slice());
        let d_bytes: usize = decoded.as_str().len();
        proof {
            assert(decoded@ == decoded_desc(b, c0));
            assert(d_bytes as int == vstd::utf8::encode_utf8(decoded@).len());
            lemma_pad4(d_bytes as int);
        }
        let rem: usize = d_bytes % 4;
        let extra: usize = if rem == 0 { 0 } else { 4 - rem };
        if d_bytes > usize::MAX - extra {
            return None;
        }
        let adv: usize = d_bytes + extra;
        if adv > usize::MAX - base {
            return None;
        }
        proof {
            assert(rec_next(b, c0) == base as int + adv as int);
            assert(rec_next(b, c0) <= usize::MAX);
        }
        let trimmed = trim_str(decoded.as_str());
        self.curr = base + adv;
        Some(GpioDesc { gpio: g_val, desc: trimmed })
    }
}

/// Build a decoder for the record table of `h` that starts at offset `i`.
pub fn gpio<'a>(h: &'a Vec<u8>, i: usize) -> (r: Gpio<'a>)
    ensures
        r.buf() == h@,
        r.pos() == i as int,
{
    Gpio { haystack: h, curr: i }
}

/// Decode the whole record table of `buf` that starts at `start`, in
/// buffer order.
pub fn collect_records(buf: &Vec<u8>, start: usize) -> (r: Vec<GpioDesc>)
    ensures
        views_of(r@) == decoded_records(buf@, start as int),
{
    let mut it = gpio(buf, start);
    let mut out: Vec<GpioDesc> = Vec::new();
    loop
        invariant
            it.buf() == buf@,
            0 <= it.pos(),
            views_of(out@) + decoded_records(buf@, it.pos())
                == decoded_records(buf@, start as int),
        ensures
            views_of(out@) == decoded_records(buf@, start as int),
        decreases decode_measure(buf@, it.pos()),
    {
        let ghost pos0 = it.pos();
        match it.next() {
            Some(g) => {
                proof {
                    assert(decoded_records(buf@, pos0)
                        == seq![rec_out(buf@, pos0)] + decoded_records(buf@, rec_next(buf@, pos0)));
                    assert(views_of(out@.push(g)) =~= views_of(out@).push(g@));
                    assert(views_of(out@).push(g@) + decoded_records(buf@, rec_next(buf@, pos0))
                        =~= views_of(out@) + decoded_records(buf@, pos0));
                    assert(rec_next(buf@, pos0) > pos0);
                }
                out.push(g);
            }
            None => {
                proof {
                    assert(decoded_records(buf@, pos0) =~= Seq::<(u8, Seq<char>)>::empty());
                    assert(views_of(out@) + decoded_records(buf@, pos0) =~= views_of(out@));
                }
                break;
            }
        }
    }
    out
}

/// Decoding never touches the buffer and depends on nothing but the buffer
/// and the starting offset: two decodes of the same buffer at the same
/// offset yield identical record sequences.
pub proof fn lemma_decode_deterministic(
    b: Seq<u8>,
    start: int,
    r1: Seq<(u8, Seq<char>)>,
    r2: Seq<(u8, Seq<char>)>,
)
    requires
        r1 == decoded_records(b, start),
        r2 == decoded_records(b, start),
    ensures
        r1 == r2,
{
}

/// For a description whose scanned length is `L` (its decoded length too,
/// which ASCII bytes guarantee), the cursor advance past the gpio slot is
/// exactly `4 * ceil(L / 4)`, a multiple of 4.
pub proof fn lemma_advance_padded(b: Seq<u8>, curr: int)
    requires
        !decode_ends(b, curr),
        0 <= curr,
        forall|k: int| 0 <= k < raw_desc(b, curr).len() ==> #[trigger] raw_desc(b, curr)[k] < 0x80,
    ensures
        desc_advance(b, curr) == 4 * ((desc_len_at(b, curr + 4)->0 + 3) / 4),
        desc_advance(b, curr) % 4 == 0,
        desc_len_at(b, curr + 4)->0 <= desc_advance(b, curr) < desc_len_at(b, curr + 4)->0 + 4,
        rec_next(b, curr) == curr + 4 + desc_advance(b, curr),
{
    lemma_desc_scan_some(b, curr + 4, 0);
    let raw = raw_desc(b, curr);
    lemma_ascii_lossy_len(raw);
    let l = raw.len() as int;
    assert(desc_len_at(b, curr + 4)->0 == l);
    lemma_pad4(l);
    assert(pad4(l) == ((l + 3) / 4) * 4);
    assert(((l + 3) / 4) * 4 == 4 * ((l + 3) / 4)) by (nonlinear_arith);
}

/// Bytes below 0x80 are valid UTF-8 and decode, lossily or not, to one
/// character per byte, so the decoded text re-encodes to as many bytes as
/// were scanned.
pub proof fn lemma_ascii_lossy_len(raw: Seq<u8>)
    requires
        forall|k: int| 0 <= k < raw.len() ==> #[trigger] raw[k] < 0x80,
    ensures
        utf8_lossy(raw) == Seq::new(raw.len(), |k: int| raw[k] as char),
        vstd::utf8::encode_utf8(utf8_lossy(raw)).len() == raw.len(),
{
    let chars = Seq::new(raw.len(), |k: int| raw[k] as char);
    assert(vstd::utf8::is_ascii_chars(chars)) by {
        assert forall|i: int| 0 <= i < chars.len()
            implies '\0' <= #[trigger] chars[i] <= '\u{7f}' by {
            assert(chars[i] == raw[i] as char);
            assert(raw[i] < 0x80);
        }
    }
    vstd::utf8::is_ascii_chars_encode_utf8(chars);
    assert(vstd::utf8::encode_utf8(chars) =~= raw);
    vstd::utf8::encode_utf8_valid_utf8(chars);
    vstd::utf8::encode_utf8_decode_utf8(chars);
    assert(vstd::utf8::decode_utf8(raw) == chars);
}

} // verus!

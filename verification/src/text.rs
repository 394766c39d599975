//! Text helpers for record descriptions: lossy UTF-8 decoding and
//! whitespace trimming.

use vstd::prelude::*;

verus! {

/// The characters that trimming removes: the Unicode `White_Space` set,
/// the same set `char::is_whitespace` accepts.
pub open spec fn is_space_char(c: char) -> bool {
    let u = c as u32;
    ||| (9 <= u && u <= 13)
    ||| u == 0x20
    ||| u == 0x85
    ||| u == 0xA0
    ||| u == 0x1680
    ||| (0x2000 <= u && u <= 0x200A)
    ||| u == 0x2028
    ||| u == 0x2029
    ||| u == 0x202F
    ||| u == 0x205F
    ||| u == 0x3000
}

/// `s` without its leading whitespace.
pub open spec fn trim_front(s: Seq<char>) -> Seq<char>
    decreases s.len(),
{
    if s.len() > 0 && is_space_char(s[0]) {
        trim_front(s.drop_first())
    } else {
        s
    }
}

/// `s` without its trailing whitespace.
pub open spec fn trim_back(s: Seq<char>) -> Seq<char>
    decreases s.len(),
{
    if s.len() > 0 && is_space_char(s[s.len() - 1]) {
        trim_back(s.drop_last())
    } else {
        s
    }
}

/// `s` without leading and trailing whitespace.
pub open spec fn trim_spec(s: Seq<char>) -> Seq<char> {
    trim_back(trim_front(s))
}

/// The characters that `String::from_utf8_lossy` yields for bytes that are
/// not valid UTF-8: the valid runs interspersed with replacement
/// characters, which no short formula captures, so the sequence carries no
/// specification beyond depending on the bytes alone.
pub uninterp spec fn utf8_replaced(bytes: Seq<u8>) -> Seq<char>;

/// The characters that `String::from_utf8_lossy` decodes the given bytes
/// to: the exact decoding where the bytes are valid UTF-8, and an
/// unspecified repair everywhere else.
pub open spec fn utf8_lossy(bytes: Seq<u8>) -> Seq<char> {
    if vstd::utf8::valid_utf8(bytes) {
        vstd::utf8::decode_utf8(bytes)
    } else {
        utf8_replaced(bytes)
    }
}

/// Relies on `String::from_utf8_lossy`: the decoding depends on the bytes
/// alone, and bytes that already are valid UTF-8 decode to exactly the
/// characters they encode.  The returned `String` exists in memory, so its
/// byte length (the length of its view's UTF-8 encoding) fits a `usize`.
#[verifier::external_body]
pub fn decode_lossy(bytes: &[u8]) -> (r: String)
    ensures
        r@ == utf8_lossy(bytes@),
        !vstd::utf8::valid_utf8(bytes@) ==> r@ == utf8_replaced(bytes@),
        vstd::utf8::encode_utf8(r@).len() <= usize::MAX,
{
    String::from_utf8_lossy(bytes).into_owned()
}

fn is_space(c: char) -> (r: bool)
    ensures
        r == is_space_char(c),
{
    let u = c as u32;
    (9 <= u && u <= 13)
        || u == 0x20
        || u == 0x85
        || u == 0xA0
        || u == 0x1680
        || (0x2000 <= u && u <= 0x200A)
        || u == 0x2028
        || u == 0x2029
        || u == 0x202F
        || u == 0x205F
        || u == 0x3000
}

proof fn lemma_trim_front_prefix(s: Seq<char>, lo: int)
    requires
        0 <= lo <= s.len(),
        forall|k: int| 0 <= k < lo ==> is_space_char(#[trigger] s[k]),
        lo == s.len() || !is_space_char(s[lo]),
    ensures
        trim_front(s) == s.subrange(lo, s.len() as int),
    decreases lo,
{
    if lo == 0 {
        assert(trim_front(s) =~= s.subrange(0, s.len() as int));
    } else {
        let t = s.drop_first();
        assert forall|k: int| 0 <= k < lo - 1 implies is_space_char(#[trigger] t[k]) by {
            assert(t[k] == s[k + 1]);
        }
        lemma_trim_front_prefix(t, lo - 1);
        assert(t.subrange(lo - 1, t.len() as int) =~= s.subrange(lo, s.len() as int));
    }
}

proof fn lemma_trim_back_suffix(s: Seq<char>, hi: int)
    requires
        0 <= hi <= s.len(),
        forall|k: int| hi <= k < s.len() ==> is_space_char(#[trigger] s[k]),
        hi == 0 || !is_space_char(s[hi - 1]),
    ensures
        trim_back(s) == s.subrange(0, hi),
    decreases s.len() - hi,
{
    if hi == s.len() {
        assert(trim_back(s) =~= s.subrange(0, hi));
    } else {
        let t = s.drop_last();
        lemma_trim_back_suffix(t, hi);
        assert(t.subrange(0, hi) =~= s.subrange(0, hi));
    }
}

/// Remove leading and trailing whitespace, as `str::trim` does.
pub fn trim_str(s: &str) -> (r: String)
    ensures
        r@ == trim_spec(s@),
{
    let n = s.unicode_len();
    let mut lo: usize = 0;
    loop
        invariant
            lo <= n,
            n == s@.len(),
            forall|k: int| 0 <= k < lo ==> is_space_char(#[trigger] s@[k]),
        ensures
            lo <= n,
            forall|k: int| 0 <= k < lo ==> is_space_char(#[trigger] s@[k]),
            lo == n || !is_space_char(s@[lo as int]),
        decreases n - lo,
    {
        if lo >= n {
            break;
        }
        if !is_space(s.get_char(lo)) {
            break;
        }
        lo = lo + 1;
    }
    let mut hi: usize = n;
    loop
        invariant
            lo <= hi <= n,
            n == s@.len(),
            forall|k: int| 0 <= k < lo ==> is_space_char(#[trigger] s@[k]),
            lo == n || !is_space_char(s@[lo as int]),
            forall|k: int| hi <= k < n ==> is_space_char(#[trigger] s@[k]),
        ensures
            lo <= hi <= n,
            forall|k: int| hi <= k < n ==> is_space_char(#[trigger] s@[k]),
            hi == lo || !is_space_char(s@[hi - 1]),
        decreases hi,
    {
        if hi <= lo {
            break;
        }
        if !is_space(s.get_char(hi - 1)) {
            break;
        }
        hi = hi - 1;
    }
    let out = s.substring_char(lo, hi);
    proof {
        lemma_trim_front_prefix(s@, lo as int);
        let f = s@.subrange(lo as int, n as int);
        if hi == lo {
            assert forall|k: int| (hi - lo) <= k < f.len()
                implies is_space_char(#[trigger] f[k]) by {
                assert(f[k] == s@[k + lo]);
            }
            lemma_trim_back_suffix(f, 0);
        } else {
            assert forall|k: int| (hi - lo) <= k < f.len()
                implies is_space_char(#[trigger] f[k]) by {
                assert(f[k] == s@[k + lo]);
            }
            assert(f[hi - lo - 1] == s@[hi - 1]);
            lemma_trim_back_suffix(f, hi - lo);
        }
        assert(f.subrange(0, hi - lo) =~= s@.subrange(lo as int, hi as int));
    }
    out.to_owned()
}

} // verus!

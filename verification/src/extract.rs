//! End-to-end extraction: locate the second aligned occurrence of the
//! `"GPIO"` tag, decode the record table that starts a fixed distance past
//! it, and sort the records by GPIO number.

use vstd::prelude::*;
use crate::decode::{collect_records, decoded_records, views_of, GpioDesc};
use crate::order::{sort_by_gpio, sorted_by_gpio};
use crate::scan::{find_aligned_str, matches_from};

verus! {

/// The ASCII bytes of the tag `"GPIO"` that brackets the signal map.
pub open spec fn gpio_tag() -> Seq<u8> {
    seq![0x47u8, 0x50u8, 0x49u8, 0x4Fu8]
}

/// How far past the second tag occurrence the record table starts.
pub const HEADER_SKIP: usize = 20;

/// Why a signal-map extraction failed.
#[derive(PartialEq, Eq, Debug)]
pub enum ExtractError {
    /// The tag did not occur twice at aligned offsets.
    TagNotFound,
}

proof fn lemma_tag_is_gpio_bytes()
    ensures
        vstd::utf8::encode_utf8("GPIO"@) == gpio_tag(),
{
    reveal_strlit("GPIO");
    assert("GPIO"@ =~= seq!['G', 'P', 'I', 'O']);
    assert(vstd::utf8::is_ascii_chars("GPIO"@)) by {
        assert forall|i: int| 0 <= i < "GPIO"@.len()
            implies '\0' <= #[trigger] "GPIO"@[i] <= '\u{7f}' by {
            if i == 0 {
                assert("GPIO"@[i] == 'G');
            } else if i == 1 {
                assert("GPIO"@[i] == 'P');
            } else if i == 2 {
                assert("GPIO"@[i] == 'I');
            } else {
                assert("GPIO"@[i] == 'O');
            }
        }
    }
    vstd::utf8::is_ascii_chars_encode_utf8("GPIO"@);
    assert(vstd::utf8::encode_utf8("GPIO"@) =~= gpio_tag()) by {
        assert("GPIO"@[0] == 'G' && 'G' as u8 == 0x47u8);
        assert("GPIO"@[1] == 'P' && 'P' as u8 == 0x50u8);
        assert("GPIO"@[2] == 'I' && 'I' as u8 == 0x49u8);
        assert("GPIO"@[3] == 'O' && 'O' as u8 == 0x4Fu8);
    }
}

/// Extract the signal map of `buf`: the decoded records of the table that
/// starts `HEADER_SKIP` bytes past the second aligned occurrence of the
/// tag, sorted by GPIO number.  Fails, and only fails, when the tag does
/// not occur twice.
pub fn extract_signalmap(buf: &Vec<u8>) -> (r: Result<Vec<GpioDesc>, ExtractError>)
    ensures
        matches_from(buf@, gpio_tag(), 0).len() >= 2 <==> r is Ok,
        match r {
            Ok(v) => {
                &&& sorted_by_gpio(v@)
                &&& views_of(v@).to_multiset() == decoded_records(
                    buf@,
                    matches_from(buf@, gpio_tag(), 0)[1] + HEADER_SKIP,
                ).to_multiset()
            }
            Err(e) => e == ExtractError::TagNotFound,
        },
{
    let mut sc = find_aligned_str(buf, "GPIO");
    proof {
        lemma_tag_is_gpio_bytes();
    }
    let ghost all = matches_from(buf@, gpio_tag(), 0);
    let first = sc.next();
    if first.is_none() {
        return Err(ExtractError::TagNotFound);
    }
    let second = sc.next();
    match second {
        None => {
            proof {
                assert(all.drop_first().len() == 0);
            }
            Err(ExtractError::TagNotFound)
        }
        Some(off) => {
            proof {
                assert(all.drop_first()[0] == all[1]);
                assert(off + 4 <= buf@.len());
            }
            if off > usize::MAX - HEADER_SKIP {
                // the table would start past any addressable offset, and
                // so in particular past the end of the buffer: it is empty
                let recs: Vec<GpioDesc> = Vec::new();
                proof {
                    assert(decoded_records(buf@, all[1] + HEADER_SKIP)
                        =~= Seq::<(u8, Seq<char>)>::empty());
                    assert(views_of(recs@) =~= Seq::<(u8, Seq<char>)>::empty());
                }
                return Ok(recs);
            }
            let start = off + HEADER_SKIP;
            let mut recs = collect_records(buf, start);
            sort_by_gpio(&mut recs);
            Ok(recs)
        }
    }
}

} // verus!

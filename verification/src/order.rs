//! Sorting of decoded records by GPIO number.

use vstd::prelude::*;
use crate::decode::{views_of, GpioDesc};

verus! {

/// True when the records come in non-decreasing order of GPIO number.
pub open spec fn sorted_by_gpio(s: Seq<GpioDesc>) -> bool {
    forall|i: int, j: int|
        0 <= i < j < s.len() ==> #[trigger] s[i].gpio <= #[trigger] s[j].gpio
}

/// Sort the records by GPIO number, non-decreasing.  The description is
/// not a tie-break key; records with equal numbers keep no promised
/// relative order.  No record is invented, lost or altered: the multiset
/// of record views is unchanged.
pub fn sort_by_gpio(v: &mut Vec<GpioDesc>)
    ensures
        sorted_by_gpio(final(v)@),
        views_of(final(v)@).to_multiset() == views_of(old(v)@).to_multiset(),
{
    let n = v.len();
    if n == 0 {
        return;
    }
    let mut i: usize = 1;
    while i < n
        invariant
            n == v@.len(),
            1 <= i <= n,
            sorted_by_gpio(v@.subrange(0, i as int)),
            views_of(v@).to_multiset() == views_of(old(v)@).to_multiset(),
        decreases n - i,
    {
        let ghost before = v@;
        let x = v.remove(i);
        let ghost mid = v@;
        proof {
            assert(views_of(mid) =~= views_of(before).remove(i as int));
            assert(views_of(before)[i as int] == x@);
            vstd::seq_lib::to_multiset_remove(views_of(before), i as int);
            assert(views_of(mid).to_multiset()
                == views_of(before).to_multiset().remove(x@));
        }
        let mut j: usize = 0;
        while j < i && v[j].gpio <= x.gpio
            invariant
                mid == v@,
                i < n,
                n == v@.len() + 1,
                j <= i,
                forall|k: int| 0 <= k < j ==> #[trigger] v@[k].gpio <= x.gpio,
            decreases i - j,
        {
            j = j + 1;
        }
        v.insert(j, x);
        proof {
            assert(views_of(v@) =~= views_of(mid).insert(j as int, x@));
            vstd::seq_lib::to_multiset_insert(views_of(mid), j as int, x@);
            assert(views_of(v@).to_multiset() == views_of(mid).to_multiset().insert(x@));
            assert(views_of(v@).to_multiset() =~= views_of(before).to_multiset()) by {
                broadcast use vstd::multiset::group_multiset_axioms;
                vstd::seq_lib::to_multiset_contains(views_of(before), x@);
                assert(views_of(before).contains(views_of(before)[i as int]));
                assert(views_of(before).to_multiset().contains(x@));
            }
            assert forall|a: int, b2: int| 0 <= a < b2 < i + 1
                implies #[trigger] v@[a].gpio <= #[trigger] v@[b2].gpio by {
                assert(forall|k: int| 0 <= k < j ==> #[trigger] mid[k].gpio <= x.gpio);
                assert(j < i ==> x.gpio < mid[j as int].gpio);
                assert(forall|k: int| 0 <= k < j ==> v@[k] == mid[k]);
                assert(v@[j as int] == x);
                assert(forall|k: int| j < k <= i ==> v@[k] == mid[k - 1]);
                assert(forall|k1: int, k2: int| 0 <= k1 < k2 < i
                    ==> #[trigger] mid[k1].gpio <= #[trigger] mid[k2].gpio) by {
                    assert(forall|k: int| 0 <= k < i
                        ==> #[trigger] mid[k] == before.subrange(0, i as int)[k]);
                }
            }
            assert(sorted_by_gpio(v@.subrange(0, i as int + 1)));
        }
        i = i + 1;
    }
    proof {
        assert(v@.subrange(0, n as int) =~= v@);
    }
}

} // verus!

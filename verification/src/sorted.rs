use vstd::prelude::*;

use crate::config::string_views;
use crate::order::{str_less, str_lt, lemma_str_lt_irreflexive, lemma_str_lt_transitive, lemma_str_lt_total};

verus! {

broadcast use vstd::seq_lib::group_seq_properties;

/// A sequence of strings in strictly increasing order.
pub open spec fn strictly_sorted(s: Seq<Seq<char>>) -> bool {
    forall|i: int, j: int| 0 <= i < j < s.len() ==> str_lt(#[trigger] s[i], #[trigger] s[j])
}

/// A strictly increasing sequence holds no element twice, so its set is as
/// large as it is long.
pub proof fn lemma_sorted_no_duplicates(s: Seq<Seq<char>>)
    requires
        strictly_sorted(s),
    ensures
        s.no_duplicates(),
        s.to_set().len() == s.len(),
        s.to_set().finite(),
{
    assert forall|i: int, j: int| 0 <= i < s.len() && 0 <= j < s.len() && i != j implies s[i] != s[j] by {
        if i < j {
            assert(str_lt(s[i], s[j]));
        } else {
            assert(str_lt(s[j], s[i]));
        }
        lemma_str_lt_irreflexive(s[i]);
    }
    s.unique_seq_to_set();
}

/// Where `x` stands in the sorted strings `v`: every string before the
/// position comes before `x`, none from it on does; the flag says whether `x`
/// is one of them.
pub fn sorted_search(v: &Vec<String>, x: &str) -> (r: (bool, usize))
    requires
        strictly_sorted(string_views(v@)),
    ensures
        r.1 <= v@.len(),
        forall|k: int| 0 <= k < r.1 ==> str_lt(#[trigger] string_views(v@)[k], x@),
        forall|k: int| r.1 <= k < v@.len() ==> !str_lt(#[trigger] string_views(v@)[k], x@),
        r.0 == (r.1 < v@.len() && string_views(v@)[r.1 as int] == x@),
        r.0 == string_views(v@).contains(x@),
{
    let ghost s = string_views(v@);
    let mut lo: usize = 0;
    let mut hi: usize = v.len();
    while lo < hi
        invariant
            s == string_views(v@),
            0 <= lo <= hi <= s.len(),
            s.len() == v@.len(),
            strictly_sorted(s),
            forall|k: int| 0 <= k < lo ==> str_lt(#[trigger] s[k], x@),
            forall|k: int| hi <= k < s.len() ==> !str_lt(#[trigger] s[k], x@),
        decreases hi - lo,
    {
        let mid = lo + (hi - lo) / 2;
        if str_less(v[mid].as_str(), x) {
            proof {
                assert forall|k: int| 0 <= k < mid + 1 implies str_lt(#[trigger] s[k], x@) by {
                    if k < mid {
                        assert(str_lt(s[k], s[mid as int]));
                        lemma_str_lt_transitive(s[k], s[mid as int], x@);
                    }
                }
            }
            lo = mid + 1;
        } else {
            proof {
                assert forall|k: int| mid <= k < s.len() implies !str_lt(#[trigger] s[k], x@) by {
                    if k > mid && str_lt(s[k], x@) {
                        assert(str_lt(s[mid as int], s[k]));
                        lemma_str_lt_transitive(s[mid as int], s[k], x@);
                    }
                }
            }
            hi = mid;
        }
    }
    let found = lo < v.len() && crate::text::str_eq(v[lo].as_str(), x);
    proof {
        if s.contains(x@) {
            let k = choose|k: int| 0 <= k < s.len() && s[k] == x@;
            lemma_str_lt_irreflexive(x@);
            if k < lo {
            } else if k > lo {
                assert(str_lt(s[lo as int], s[k]));
                lemma_str_lt_total(s[lo as int], x@);
            }
        }
        if found {
            assert(s[lo as int] == v@[lo as int]@);
            assert(s.contains(x@));
        }
    }
    (found, lo)
}

/// Adds `x` to the sorted strings `v`, keeping them sorted; nothing changes
/// when `x` is there already.
pub fn sorted_insert(v: &mut Vec<String>, x: String)
    requires
        strictly_sorted(string_views(old(v)@)),
    ensures
        strictly_sorted(string_views(final(v)@)),
        string_views(final(v)@).to_set() == string_views(old(v)@).to_set().insert(x@),
        string_views(old(v)@).contains(x@) ==> final(v)@ == old(v)@,
        !string_views(old(v)@).contains(x@) ==> final(v)@.len() == old(v)@.len() + 1,
{
    let (found, pos) = sorted_search(v, x.as_str());
    let ghost old_items = string_views(v@);
    if found {
        assert(old_items.to_set().insert(x@) =~= old_items.to_set());
        return;
    }
    proof {
        lemma_str_lt_total(x@, x@);
    }
    v.insert(pos, x);
    let ghost new_items = string_views(v@);
    proof {
        assert(new_items =~= old_items.insert(pos as int, x@));
        assert forall|i: int, j: int| 0 <= i < j < new_items.len() implies str_lt(#[trigger] new_items[i], #[trigger] new_items[j]) by {
            if j < pos {
            } else if j == pos {
            } else if i < pos {
                assert(new_items[j] == old_items[j - 1]);
                if j - 1 > pos {
                    assert(str_lt(old_items[pos as int], old_items[j - 1]));
                }
                assert(!str_lt(old_items[pos as int], x@));
                lemma_str_lt_total(old_items[pos as int], x@);
                assert(str_lt(x@, old_items[pos as int]));
                lemma_str_lt_transitive(old_items[i], x@, old_items[pos as int]);
                if j - 1 > pos {
                    lemma_str_lt_transitive(old_items[i], old_items[pos as int], old_items[j - 1]);
                }
            } else if i == pos {
                lemma_str_lt_total(old_items[pos as int], x@);
                if j - 1 > pos {
                    assert(str_lt(old_items[pos as int], old_items[j - 1]));
                    lemma_str_lt_transitive(x@, old_items[pos as int], old_items[j - 1]);
                }
            } else {
                assert(new_items[i] == old_items[i - 1]);
                assert(new_items[j] == old_items[j - 1]);
            }
        }
        assert(new_items.to_set() =~= old_items.to_set().insert(x@));
    }
}

} // verus!

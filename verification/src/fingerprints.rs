use vstd::prelude::*;
use vstd::set_lib::*;

use crate::config::string_views;
use crate::normalize::{Normalized, spec_subtree_reprs};
use crate::sorted::{strictly_sorted, lemma_sorted_no_duplicates, sorted_search, sorted_insert};

verus! {

broadcast use vstd::seq_lib::group_seq_properties, vstd::set_lib::group_set_lib_default;

/// The set of text forms of the subtrees of a normalized tree.
#[derive(Debug)]
pub struct Fingerprints {
    values: Vec<String>,
}

impl Fingerprints {
    /// The fingerprints in increasing order.
    pub closed spec fn items(self) -> Seq<Seq<char>> {
        string_views(self.values@)
    }

    #[verifier::type_invariant]
    spec fn inv(self) -> bool {
        &&& strictly_sorted(self.items())
        &&& self.values@.len() <= isize::MAX
    }
}

impl View for Fingerprints {
    type V = Set<Seq<char>>;

    open spec fn view(&self) -> Set<Seq<char>> {
        self.items().to_set()
    }
}

impl Fingerprints {
    /// No fingerprints.
    pub fn empty() -> (r: Fingerprints)
        ensures
            r@ == Set::<Seq<char>>::empty(),
    {
        let r = Fingerprints { values: Vec::new() };
        assert(r.items() =~= Seq::<Seq<char>>::empty());
        r
    }

    /// Whether `x` is one of the fingerprints.
    pub fn contains(&self, x: &str) -> (r: bool)
        ensures
            r == self@.contains(x@),
    {
        proof {
            use_type_invariant(self);
        }
        sorted_search(&self.values, x).0
    }

    /// Adds `x` to the fingerprints. A vector never holds more than
    /// `isize::MAX` strings, so a new fingerprint beyond that many is not kept.
    fn insert(&mut self, x: String)
        ensures
            old(self)@.len() < isize::MAX ==> final(self)@ == old(self)@.insert(x@),
            old(self)@.len() >= isize::MAX ==> final(self)@ == old(self)@,
            final(self)@.len() <= isize::MAX,
    {
        proof {
            use_type_invariant(&*self);
            lemma_sorted_no_duplicates(self.items());
        }
        if self.values.len() >= isize::MAX as usize {
            if self.contains(x.as_str()) {
                assert(old(self)@.insert(x@) =~= old(self)@);
            }
            return;
        }
        let mut values: Vec<String> = Vec::new();
        std::mem::swap(&mut values, &mut self.values);
        sorted_insert(&mut values, x);
        proof {
            lemma_sorted_no_duplicates(string_views(values@));
        }
        self.values = values;
    }
}

} // verus!

verus! {

/// The fingerprints of a normalized tree: the text forms of all its subtrees.
pub open spec fn spec_fingerprints(n: Normalized) -> Set<Seq<char>> {
    spec_subtree_reprs(n).to_set()
}

/// The set that taking the texts of `s` in order gives, where a text is
/// only added while the set holds fewer than `isize::MAX` texts.
pub open spec fn capped_set(s: Seq<Seq<char>>) -> Set<Seq<char>>
    decreases s.len(),
{
    if s.len() == 0 {
        Set::empty()
    } else {
        let c = capped_set(s.drop_last());
        if c.len() < isize::MAX { c.insert(s.last()) } else { c }
    }
}

impl Fingerprints {
    /// The fingerprints of `normalized`: the text forms of the whole tree and
    /// of every subtree in it. A set never holds more than `isize::MAX` of them.
    pub fn from_normalized(normalized: &Normalized) -> (r: Fingerprints)
        ensures
            r@ == capped_set(spec_subtree_reprs(*normalized)),
            r@.subset_of(spec_fingerprints(*normalized)),
            spec_fingerprints(*normalized).len() <= isize::MAX ==> r@ == spec_fingerprints(*normalized),
    {
        let mut reprs: Vec<String> = Vec::new();
        normalized.child_reprs(&mut reprs);
        assert(string_views(reprs@) =~= spec_subtree_reprs(*normalized));
        let mut fp = Fingerprints::empty();
        let mut i: usize = 0;
        while i < reprs.len()
            invariant
                0 <= i <= reprs@.len(),
                string_views(reprs@) == spec_subtree_reprs(*normalized),
                fp@ == capped_set(string_views(reprs@).take(i as int)),
                fp@.subset_of(string_views(reprs@).take(i as int).to_set()),
                string_views(reprs@).take(i as int).to_set().len() <= isize::MAX
                    ==> fp@ == string_views(reprs@).take(i as int).to_set(),
            decreases reprs@.len() - i,
        {
            let ghost prev = string_views(reprs@).take(i as int).to_set();
            let ghost next = string_views(reprs@).take(i + 1).to_set();
            let x = reprs[i].clone();
            proof {
                assert(string_views(reprs@).take(i + 1) =~= string_views(reprs@).take(i as int).push(x@));
                assert(next =~= prev.insert(x@));
                assert(string_views(reprs@).take(i + 1).drop_last() =~= string_views(reprs@).take(i as int));
                lemma_len_subset(prev, next);
                use_type_invariant(&fp);
                lemma_sorted_no_duplicates(fp.items());
            }
            fp.insert(x);
            i = i + 1;
        }
        assert(string_views(reprs@).take(i as int) =~= string_views(reprs@));
        fp
    }

    /// The number of fingerprints.
    pub fn len(&self) -> (r: usize)
        ensures
            r == self@.len(),
            r <= isize::MAX,
    {
        proof {
            use_type_invariant(self);
            lemma_sorted_no_duplicates(self.items());
        }
        self.values.len()
    }

    /// The fingerprints, in increasing order.
    pub fn iter(&self) -> (r: &Vec<String>)
        ensures
            strictly_sorted(string_views(r@)),
            string_views(r@).to_set() == self@,
    {
        proof {
            use_type_invariant(self);
        }
        &self.values
    }

    /// The number of fingerprints that `self` and `other` share.
    pub fn intersection_len(&self, other: &Self) -> (r: usize)
        ensures
            r == self@.intersect(other@).len(),
    {
        proof {
            use_type_invariant(self);
            lemma_sorted_no_duplicates(self.items());
        }
        let mut count: usize = 0;
        let mut i: usize = 0;
        assert(self.items().take(0).to_set().intersect(other@) =~= Set::<Seq<char>>::empty());
        while i < self.values.len()
            invariant
                0 <= i <= self.items().len(),
                self.items().len() == self.values@.len(),
                self.items().no_duplicates(),
                count <= i,
                count == self.items().take(i as int).to_set().intersect(other@).len(),
            decreases self.values@.len() - i,
        {
            let ghost prev = self.items().take(i as int).to_set().intersect(other@);
            let ghost x = self.items()[i as int];
            let inside = other.contains(self.values[i].as_str());
            proof {
                assert(self.items().take(i + 1) =~= self.items().take(i as int).push(x));
                assert(!self.items().take(i as int).contains(x)) by {
                    if self.items().take(i as int).contains(x) {
                        let k = choose|k: int| 0 <= k < i && self.items().take(i as int)[k] == x;
                        assert(self.items()[k] == self.items()[i as int]);
                    }
                }
                if inside {
                    assert(self.items().take(i + 1).to_set().intersect(other@) =~= prev.insert(x));
                    assert(!prev.contains(x));
                } else {
                    assert(self.items().take(i + 1).to_set().intersect(other@) =~= prev);
                }
            }
            if inside {
                count = count + 1;
            }
            i = i + 1;
        }
        assert(self.items().take(i as int) =~= self.items());
        count
    }

    /// The number of fingerprints in `self`, in `other`, or in both.
    pub fn union_len(&self, other: &Self) -> (r: usize)
        ensures
            r == self@.union(other@).len(),
    {
        let shared = self.intersection_len(other);
        let a = self.len();
        let b = other.len();
        proof {
            use_type_invariant(self);
            use_type_invariant(other);
            lemma_sorted_no_duplicates(self.items());
            lemma_sorted_no_duplicates(other.items());
            lemma_set_intersect_union_lens(self@, other@);
            lemma_len_intersect(other@, self@);
            assert(other@.intersect(self@) =~= self@.intersect(other@));
        }
        a + (b - shared)
    }
}

/// Inclusion and exclusion: the fingerprints in either of two sets number as
/// many as those of both sets together, less those they share.
pub proof fn lemma_union_len(a: Fingerprints, b: Fingerprints)
    ensures
        a@.union(b@).len() + a@.intersect(b@).len() == a@.len() + b@.len(),
{
    vstd::seq_lib::seq_to_set_is_finite(a.items());
    vstd::seq_lib::seq_to_set_is_finite(b.items());
    lemma_set_intersect_union_lens(a@, b@);
}

/// Two sets share no more fingerprints than the smaller holds, and together
/// hold at least as many as the larger.
pub proof fn lemma_overlap_bounds(a: Fingerprints, b: Fingerprints)
    ensures
        a@.intersect(b@).len() <= a@.len(),
        a@.intersect(b@).len() <= b@.len(),
        a@.union(b@).len() >= a@.len(),
        a@.union(b@).len() >= b@.len(),
{
    vstd::seq_lib::seq_to_set_is_finite(a.items());
    vstd::seq_lib::seq_to_set_is_finite(b.items());
    lemma_len_intersect(a@, b@);
    lemma_len_intersect(b@, a@);
    assert(b@.intersect(a@) =~= a@.intersect(b@));
    lemma_set_intersect_union_lens(a@, b@);
}

} // verus!

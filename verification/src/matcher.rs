use vstd::prelude::*;

use crate::candidates::{Candidate, opt_view};
use crate::config::{Config, Threshold};
use crate::candidates::{scan_candidates, scan_ok, scan_error_matches, scanned_all, cand_view, same_cands, same_scan_settings, lemma_scan_unique};
use crate::files::SourceFile;
use crate::language::{Language, spec_family};
use crate::ranking::{ranked, sort_duplicates, stable_rearrangement, same_views, dup_view, lemma_ranking_unique};
use crate::DryerError;
use crate::report::{DuplicateCandidate, Location, Report};
use crate::text::str_eq;

verus! {

broadcast use vstd::seq_lib::group_seq_properties, vstd::set_lib::group_set_lib_default;

/// The fraction `n / d` (zero when `d` is zero) is below the threshold.
pub open spec fn below(n: nat, d: nat, t: Threshold) -> bool {
    if d == 0 {
        0 < t.numerator
    } else {
        n * t.denominator < t.numerator * d
    }
}

/// A score of `shared / total` (zero when `total` is zero) reaches the threshold.
pub open spec fn meets(shared: nat, total: nat, t: Threshold) -> bool {
    !below(shared, total, t)
}

pub open spec fn min_nat(a: nat, b: nat) -> nat {
    if a <= b { a } else { b }
}

pub open spec fn max_nat(a: nat, b: nat) -> nat {
    if a >= b { a } else { b }
}

proof fn lemma_product_fits(a: nat, b: nat)
    requires
        a <= u64::MAX,
        b <= u64::MAX,
    ensures
        a * b <= u128::MAX,
{
    assert(a * b <= u64::MAX * u64::MAX) by (nonlinear_arith)
        requires
            a <= u64::MAX,
            b <= u64::MAX,
    ;
}

/// Whether the fraction `n / d` (zero when `d` is zero) is below the threshold.
pub fn below_threshold(n: usize, d: usize, t: Threshold) -> (r: bool)
    ensures
        r == below(n as nat, d as nat, t),
{
    if d == 0 {
        return 0 < t.numerator;
    }
    proof {
        lemma_product_fits(n as nat, t.denominator as nat);
        lemma_product_fits(t.numerator as nat, d as nat);
    }
    let lhs = (n as u128) * (t.denominator as u128);
    let rhs = (t.numerator as u128) * (d as u128);
    lhs < rhs
}

/// The highest score two candidates could reach, as a fraction: the smaller
/// fingerprint count over the larger.
pub fn max_possible_score(left: &Candidate, right: &Candidate) -> (r: (usize, usize))
    ensures
        r.0 == min_nat(left.fingerprints@.len(), right.fingerprints@.len()),
        r.1 == max_nat(left.fingerprints@.len(), right.fingerprints@.len()),
{
    let l = left.fingerprints.len();
    let r = right.fingerprints.len();
    if l <= r { (l, r) } else { (r, l) }
}

/// Whether two candidates may be compared: always across languages when
/// asked to, otherwise only within one language family.
pub open spec fn spec_compatible(config: Config, left: Candidate, right: Candidate) -> bool {
    config.cross_language || spec_family(left.language) == spec_family(right.language)
}

/// Whether two candidates may be compared.
pub fn compatible(config: &Config, left: &Candidate, right: &Candidate) -> (r: bool)
    ensures
        r == spec_compatible(*config, *left, *right),
{
    config.cross_language || str_eq(left.language.family(), right.language.family())
}

/// The language a report gives a pair.
pub open spec fn spec_duplicate_language(left: Language, right: Language) -> Seq<char> {
    if spec_family(left) != spec_family(right) {
        "cross-language"@
    } else if left == Language::Daml && right == Language::Daml {
        "daml"@
    } else {
        spec_family(left)
    }
}

/// The language a report gives a pair.
pub fn duplicate_language(left: &Candidate, right: &Candidate) -> (r: String)
    ensures
        r@ == spec_duplicate_language(left.language, right.language),
{
    if !str_eq(left.language.family(), right.language.family()) {
        return crate::text::owned("cross-language");
    }
    if left.language == Language::Daml && right.language == Language::Daml {
        return crate::text::owned("daml");
    }
    crate::text::owned(left.language.family())
}

/// `l` says where candidate `c` stands.
pub open spec fn location_of(c: Candidate, l: Location) -> bool {
    &&& l.file@ == c.file@
    &&& l.start_line == c.start_line
    &&& l.end_line == c.end_line
    &&& l.kind@ == c.kind@
    &&& opt_view(l.name) == opt_view(c.name)
}

/// Where a candidate stands.
pub fn location(candidate: &Candidate) -> (r: Location)
    ensures
        location_of(*candidate, r),
{
    Location {
        file: candidate.file.clone(),
        start_line: candidate.start_line,
        end_line: candidate.end_line,
        kind: candidate.kind.clone(),
        name: match &candidate.name {
            Some(n) => Some(n.clone()),
            None => None,
        },
    }
}

/// The fingerprints two candidates share.
pub open spec fn shared_of(left: Candidate, right: Candidate) -> nat {
    left.fingerprints@.intersect(right.fingerprints@).len()
}

/// The fingerprints in either of two candidates.
pub open spec fn total_of(left: Candidate, right: Candidate) -> nat {
    left.fingerprints@.union(right.fingerprints@).len()
}

/// `d` reports the pair `left`, `right`.
pub open spec fn duplicate_of(left: Candidate, right: Candidate, d: DuplicateCandidate) -> bool {
    &&& d.language@ == spec_duplicate_language(left.language, right.language)
    &&& location_of(left, d.left)
    &&& location_of(right, d.right)
    &&& d.left_nodes == left.nodes
    &&& d.right_nodes == right.nodes
    &&& d.shared_fingerprints == shared_of(left, right)
    &&& d.total_fingerprints == total_of(left, right)
}

/// The report entry for a pair.
pub fn duplicate(left: &Candidate, right: &Candidate, shared: usize, total: usize) -> (r: DuplicateCandidate)
    requires
        shared == shared_of(*left, *right),
        total == total_of(*left, *right),
    ensures
        duplicate_of(*left, *right, r),
{
    DuplicateCandidate {
        language: duplicate_language(left, right),
        left: location(left),
        right: location(right),
        left_nodes: left.nodes,
        right_nodes: right.nodes,
        shared_fingerprints: shared,
        total_fingerprints: total,
    }
}

/// Whether the pair `i < j` is reported: the two may be compared, the higher
/// of their fingerprint counts does not rule the threshold out, and their
/// score reaches it.
pub open spec fn reported(config: Config, cands: Seq<Candidate>, i: int, j: int) -> bool {
    let l = cands[i];
    let r = cands[j];
    &&& spec_compatible(config, l, r)
    &&& !below(min_nat(l.fingerprints@.len(), r.fingerprints@.len()), max_nat(l.fingerprints@.len(), r.fingerprints@.len()), config.threshold)
    &&& meets(shared_of(l, r), total_of(l, r), config.threshold)
}

/// The pairs `(i, j)` with `i < j < n` in the row `i`, up to `j_end`, for which `p` holds.
pub open spec fn row_pairs(i: int, j_end: int, p: spec_fn(int, int) -> bool) -> Seq<(int, int)>
    decreases j_end - i,
{
    if j_end <= i + 1 {
        Seq::empty()
    } else {
        row_pairs(i, j_end - 1, p) + if p(i, j_end - 1) { seq![(i, j_end - 1)] } else { Seq::empty() }
    }
}

/// The pairs `(i, j)` with `i < i_end` and `i < j < n` for which `p` holds,
/// in order of `i`, then `j`.
pub open spec fn grid_pairs(n: int, i_end: int, p: spec_fn(int, int) -> bool) -> Seq<(int, int)>
    decreases i_end,
{
    if i_end <= 0 {
        Seq::empty()
    } else {
        grid_pairs(n, i_end - 1, p) + row_pairs(i_end - 1, n, p)
    }
}

/// `ds` report the pairs `pairs` of `cands`, in order.
pub open spec fn reports_pairs(cands: Seq<Candidate>, pairs: Seq<(int, int)>, ds: Seq<DuplicateCandidate>) -> bool {
    &&& ds.len() == pairs.len()
    &&& forall|k: int| 0 <= k < ds.len() ==> duplicate_of(cands[pairs[k].0], cands[pairs[k].1], #[trigger] ds[k])
}

/// The pairs that a comparison reports, in order of the first, then the second.
pub open spec fn spec_reported_pairs(config: Config, cands: Seq<Candidate>) -> Seq<(int, int)> {
    grid_pairs(cands.len() as int, cands.len() as int, |i: int, j: int| reported(config, cands, i, j))
}

/// Compares every pair of candidates.
pub fn compare_all_pairs(config: &Config, candidates: &Vec<Candidate>) -> (r: Vec<DuplicateCandidate>)
    ensures
        reports_pairs(candidates@, spec_reported_pairs(*config, candidates@), r@),
{
    let ghost p = |i: int, j: int| reported(*config, candidates@, i, j);
    let ghost n = candidates@.len() as int;
    let mut duplicates: Vec<DuplicateCandidate> = Vec::new();
    let mut left_index: usize = 0;
    while left_index < candidates.len()
        invariant
            n == candidates@.len(),
            p == (|i: int, j: int| reported(*config, candidates@, i, j)),
            0 <= left_index <= n,
            reports_pairs(candidates@, grid_pairs(n, left_index as int, p), duplicates@),
        decreases n - left_index,
    {
        let mut right_index: usize = left_index + 1;
        let ghost before = grid_pairs(n, left_index as int, p);
        while right_index < candidates.len()
            invariant
                n == candidates@.len(),
                p == (|i: int, j: int| reported(*config, candidates@, i, j)),
                0 <= left_index < n,
                left_index + 1 <= right_index <= n,
                before == grid_pairs(n, left_index as int, p),
                reports_pairs(candidates@, before + row_pairs(left_index as int, right_index as int, p), duplicates@),
            decreases n - right_index,
        {
            let left = &candidates[left_index];
            let right = &candidates[right_index];
            let ghost pairs = before + row_pairs(left_index as int, right_index as int, p);
            let ghost next = before + row_pairs(left_index as int, right_index + 1, p);
            let keep = if !compatible(config, left, right) {
                false
            } else {
                let (lo, hi) = max_possible_score(left, right);
                if below_threshold(lo, hi, config.threshold) {
                    false
                } else {
                    true
                }
            };
            if keep {
                let shared = left.fingerprints.intersection_len(&right.fingerprints);
                let total = left.fingerprints.union_len(&right.fingerprints);
                if !below_threshold(shared, total, config.threshold) {
                    let d = duplicate(left, right, shared, total);
                    duplicates.push(d);
                    proof {
                        assert(p(left_index as int, right_index as int));
                        assert(next =~= pairs.push((left_index as int, right_index as int)));
                    }
                } else {
                    proof {
                        assert(!p(left_index as int, right_index as int));
                        assert(next =~= pairs);
                    }
                }
            } else {
                proof {
                    assert(!p(left_index as int, right_index as int));
                    assert(next =~= pairs);
                }
            }
            right_index = right_index + 1;
        }
        proof {
            assert(grid_pairs(n, left_index + 1, p) == before + row_pairs(left_index as int, n, p));
        }
        left_index = left_index + 1;
    }
    duplicates
}

} // verus!

verus! {

/// Every fingerprint of the candidates before `i_end`.
pub open spec fn fingerprints_upto(cands: Seq<Candidate>, i_end: int) -> Set<Seq<char>>
    decreases i_end,
{
    if i_end <= 0 {
        Set::empty()
    } else {
        fingerprints_upto(cands, i_end - 1).union(cands[i_end - 1].fingerprints@)
    }
}

proof fn lemma_fingerprints_upto(cands: Seq<Candidate>, i_end: int, x: Seq<char>)
    requires
        0 <= i_end,
    ensures
        fingerprints_upto(cands, i_end).contains(x) <==> exists|i: int| 0 <= i < i_end && (#[trigger] cands[i]).fingerprints@.contains(x),
    decreases i_end,
{
    if i_end > 0 {
        lemma_fingerprints_upto(cands, i_end - 1, x);
    }
}

/// Every fingerprint of every candidate, sorted, each once.
fn vocabulary(candidates: &Vec<Candidate>) -> (r: Vec<String>)
    ensures
        crate::sorted::strictly_sorted(crate::config::string_views(r@)),
        crate::config::string_views(r@).to_set() == fingerprints_upto(candidates@, candidates@.len() as int),
{
    let mut vocab: Vec<String> = Vec::new();
    let mut i: usize = 0;
    assert(crate::config::string_views(vocab@).to_set() =~= Set::<Seq<char>>::empty());
    while i < candidates.len()
        invariant
            0 <= i <= candidates@.len(),
            crate::sorted::strictly_sorted(crate::config::string_views(vocab@)),
            crate::config::string_views(vocab@).to_set() == fingerprints_upto(candidates@, i as int),
        decreases candidates@.len() - i,
    {
        let items = candidates[i].fingerprints.iter();
        let mut t: usize = 0;
        while t < items.len()
            invariant
                0 <= i < candidates@.len(),
                0 <= t <= items@.len(),
                crate::config::string_views(items@).to_set() == candidates@[i as int].fingerprints@,
                crate::sorted::strictly_sorted(crate::config::string_views(vocab@)),
                crate::config::string_views(vocab@).to_set() == fingerprints_upto(candidates@, i as int)
                    + crate::config::string_views(items@).take(t as int).to_set(),
            decreases items@.len() - t,
        {
            let ghost prev = crate::config::string_views(vocab@).to_set();
            let x = items[t].clone();
            let ghost xv = x@;
            assert(xv == crate::config::string_views(items@)[t as int]);
            crate::sorted::sorted_insert(&mut vocab, x);
            proof {
                let s = crate::config::string_views(items@);
                assert(s.take(t + 1) =~= s.take(t as int).push(s[t as int]));
                assert(s.take(t + 1).to_set() =~= s.take(t as int).to_set().insert(s[t as int]));
                assert(crate::config::string_views(vocab@).to_set() =~= fingerprints_upto(candidates@, i as int)
                    + s.take(t + 1).to_set());
            }
            t = t + 1;
        }
        proof {
            let s = crate::config::string_views(items@);
            assert(s.take(t as int) =~= s);
            assert(crate::config::string_views(vocab@).to_set() =~= fingerprints_upto(candidates@, i + 1));
        }
        i = i + 1;
    }
    vocab
}

/// The indices below `i_end` of the candidates that have fingerprint `x`, in increasing order.
pub open spec fn posting(cands: Seq<Candidate>, x: Seq<char>, i_end: int) -> Seq<int>
    decreases i_end,
{
    if i_end <= 0 {
        Seq::empty()
    } else {
        posting(cands, x, i_end - 1) + if cands[i_end - 1].fingerprints@.contains(x) {
            seq![i_end - 1]
        } else {
            Seq::empty()
        }
    }
}

proof fn lemma_posting(cands: Seq<Candidate>, x: Seq<char>, i_end: int)
    requires
        0 <= i_end,
    ensures
        forall|a: int, b: int| 0 <= a < b < posting(cands, x, i_end).len()
            ==> posting(cands, x, i_end)[a] < posting(cands, x, i_end)[b],
        forall|j: int| posting(cands, x, i_end).contains(j) <==> 0 <= j < i_end && cands[j].fingerprints@.contains(x),
        forall|a: int| 0 <= a < posting(cands, x, i_end).len() ==> 0 <= #[trigger] posting(cands, x, i_end)[a] < i_end,
    decreases i_end,
{
    if i_end > 0 {
        lemma_posting(cands, x, i_end - 1);
        let prev = posting(cands, x, i_end - 1);
        let cur = posting(cands, x, i_end);
        assert forall|j: int| cur.contains(j) <==> 0 <= j < i_end && cands[j].fingerprints@.contains(x) by {
            if cur.contains(j) {
                let a = choose|a: int| 0 <= a < cur.len() && cur[a] == j;
                if a < prev.len() {
                    assert(prev[a] == j);
                    assert(prev.contains(j));
                }
            }
            if 0 <= j < i_end && cands[j].fingerprints@.contains(x) {
                if j < i_end - 1 {
                    assert(prev.contains(j));
                    let a = choose|a: int| 0 <= a < prev.len() && prev[a] == j;
                    assert(cur[a] == j);
                } else {
                    assert(cur[prev.len() as int] == j);
                }
            }
        }
    }
}

/// For each fingerprint of the sorted vocabulary, the candidates that have it, in increasing order.
fn postings_for(candidates: &Vec<Candidate>, vocab: &Vec<String>) -> (r: Vec<Vec<usize>>)
    requires
        crate::sorted::strictly_sorted(crate::config::string_views(vocab@)),
        crate::config::string_views(vocab@).to_set() == fingerprints_upto(candidates@, candidates@.len() as int),
    ensures
        r@.len() == vocab@.len(),
        forall|k: int| 0 <= k < r@.len() ==> (#[trigger] r@[k])@.map_values(|v: usize| v as int)
            == posting(candidates@, vocab@[k]@, candidates@.len() as int),
{
    let ghost vs = crate::config::string_views(vocab@);
    let ghost n = candidates@.len() as int;
    let mut postings: Vec<Vec<usize>> = Vec::new();
    let mut k: usize = 0;
    while k < vocab.len()
        invariant
            0 <= k <= vocab@.len(),
            postings@.len() == k,
            forall|q: int| 0 <= q < k ==> (#[trigger] postings@[q])@.len() == 0,
        decreases vocab@.len() - k,
    {
        postings.push(Vec::new());
        k = k + 1;
    }
    let mut i: usize = 0;
    while i < candidates.len()
        invariant
            vs == crate::config::string_views(vocab@),
            n == candidates@.len(),
            crate::sorted::strictly_sorted(vs),
            vs.to_set() == fingerprints_upto(candidates@, n),
            0 <= i <= n,
            postings@.len() == vocab@.len(),
            forall|q: int| 0 <= q < postings@.len() ==> (#[trigger] postings@[q])@.map_values(|v: usize| v as int)
                == posting(candidates@, vs[q], i as int),
        decreases n - i,
    {
        let items = candidates[i].fingerprints.iter();
        let ghost its = crate::config::string_views(items@);
        let mut t: usize = 0;
        proof {
            crate::sorted::lemma_sorted_no_duplicates(its);
            crate::sorted::lemma_sorted_no_duplicates(vs);
        }
        while t < items.len()
            invariant
                vs == crate::config::string_views(vocab@),
                its == crate::config::string_views(items@),
                n == candidates@.len(),
                crate::sorted::strictly_sorted(vs),
                vs.no_duplicates(),
                its.no_duplicates(),
                vs.to_set() == fingerprints_upto(candidates@, n),
                0 <= i < n,
                its.to_set() == candidates@[i as int].fingerprints@,
                0 <= t <= its.len(),
                postings@.len() == vocab@.len(),
                forall|q: int| 0 <= q < postings@.len() ==> (#[trigger] postings@[q])@.map_values(|v: usize| v as int)
                    == posting(candidates@, vs[q], i as int) + if its.take(t as int).contains(vs[q]) {
                        seq![i as int]
                    } else {
                        Seq::<int>::empty()
                    },
            decreases its.len() - t,
        {
            let (found, pos) = crate::sorted::sorted_search(vocab, items[t].as_str());
            proof {
                assert(its.to_set().contains(its[t as int]));
                lemma_fingerprints_upto(candidates@, n, its[t as int]);
                assert(vs.to_set().contains(its[t as int]));
                assert(vs.contains(its[t as int]));
            }
            let ghost before = postings@;
            postings[pos].push(i);
            proof {
                assert(vs[pos as int] == its[t as int]);
                assert(its.take(t + 1) =~= its.take(t as int).push(its[t as int]));
                assert(!its.take(t as int).contains(its[t as int])) by {
                    if its.take(t as int).contains(its[t as int]) {
                        let a = choose|a: int| 0 <= a < t && its.take(t as int)[a] == its[t as int];
                        assert(its[a] == its[t as int]);
                    }
                }
                assert forall|q: int| 0 <= q < postings@.len() implies (#[trigger] postings@[q])@.map_values(|v: usize| v as int)
                    == posting(candidates@, vs[q], i as int) + if its.take(t + 1).contains(vs[q]) {
                        seq![i as int]
                    } else {
                        Seq::<int>::empty()
                    } by {
                    if q == pos {
                        assert(postings@[q]@ == before[q]@.push(i));
                        assert(postings@[q]@.map_values(|v: usize| v as int) =~= before[q]@.map_values(|v: usize| v as int).push(i as int));
                        assert(its.take(t + 1)[t as int] == its[t as int]);
                        assert(its.take(t + 1).contains(vs[q]));
                    } else {
                        assert(postings@[q] == before[q]);
                        assert(vs[q] != vs[pos as int]);
                        assert(its.take(t + 1).contains(vs[q]) == its.take(t as int).contains(vs[q]));
                    }
                }
            }
            t = t + 1;
        }
        proof {
            assert(its.take(t as int) =~= its);
            assert forall|q: int| 0 <= q < postings@.len() implies (#[trigger] postings@[q])@.map_values(|v: usize| v as int)
                == posting(candidates@, vs[q], i + 1) by {
                assert(its.contains(vs[q]) == candidates@[i as int].fingerprints@.contains(vs[q]));
            }
        }
        i = i + 1;
    }
    postings
}

} // verus!

verus! {

/// The pair `(i, j)` shares at least one fingerprint.
pub open spec fn nonzero_pair(cands: Seq<Candidate>, i: int, j: int) -> bool {
    shared_of(cands[i], cands[j]) >= 1
}

/// The pairs `i < j` that share a fingerprint, in order of `i`, then `j`.
pub open spec fn spec_shared_pairs(cands: Seq<Candidate>) -> Seq<(int, int)> {
    grid_pairs(cands.len() as int, cands.len() as int, |i: int, j: int| nonzero_pair(cands, i, j))
}

/// `ts` give, for the pairs `pairs` in order, both indices and the number of
/// fingerprints the pair shares.
pub open spec fn counts_for(cands: Seq<Candidate>, pairs: Seq<(int, int)>, ts: Seq<(usize, usize, usize)>) -> bool {
    &&& ts.len() == pairs.len()
    &&& forall|k: int| 0 <= k < ts.len() ==> {
        &&& (#[trigger] ts[k]).0 == pairs[k].0
        &&& ts[k].1 == pairs[k].1
        &&& ts[k].2 == shared_of(cands[pairs[k].0], cands[pairs[k].1])
    }
}

/// Adds one to `row[j]` for each `j > i` in the increasing list `list`.
fn add_posting(row: &mut Vec<usize>, list: &Vec<usize>, i: usize)
    requires
        forall|a: int, b: int| 0 <= a < b < list@.len() ==> list@[a] < list@[b],
        forall|a: int| 0 <= a < list@.len() ==> (#[trigger] list@[a]) < old(row)@.len(),
        forall|j: int| 0 <= j < old(row)@.len() && j > i && list@.contains(j as usize) ==> (#[trigger] old(row)@[j]) < usize::MAX,
    ensures
        final(row)@.len() == old(row)@.len(),
        forall|j: int| 0 <= j < final(row)@.len() ==> (#[trigger] final(row)@[j]) == old(row)@[j]
            + if j > i && list@.contains(j as usize) { 1int } else { 0int },
{
    let row_len = row.len();
    let mut m: usize = 0;
    while m < list.len()
        invariant
            0 <= m <= list@.len(),
            row_len == row@.len(),
            row@.len() == old(row)@.len(),
            forall|a: int, b: int| 0 <= a < b < list@.len() ==> list@[a] < list@[b],
            forall|a: int| 0 <= a < list@.len() ==> (#[trigger] list@[a]) < old(row)@.len(),
            forall|j: int| 0 <= j < old(row)@.len() && j > i && list@.contains(j as usize) ==> (#[trigger] old(row)@[j]) < usize::MAX,
            forall|j: int| 0 <= j < row@.len() ==> (#[trigger] row@[j]) == old(row)@[j]
                + if j > i && list@.take(m as int).contains(j as usize) { 1int } else { 0int },
        decreases list@.len() - m,
    {
        let j = list[m];
        proof {
            assert(list@.take(m + 1) =~= list@.take(m as int).push(j));
            assert(!list@.take(m as int).contains(j)) by {
                if list@.take(m as int).contains(j) {
                    let a = choose|a: int| 0 <= a < m && list@.take(m as int)[a] == j;
                    assert(list@[a] < list@[m as int]);
                }
            }
            assert(list@.contains(j));
        }
        if j > i {
            let v = row[j];
            row.set(j, v + 1);
        }
        proof {
            assert forall|q: int| 0 <= q < row@.len() implies (#[trigger] row@[q]) == old(row)@[q]
                + if q > i && list@.take(m + 1).contains(q as usize) { 1int } else { 0int } by {
                if q != j {
                    assert((q as usize) != j);
                    assert(list@.take(m + 1).contains(q as usize) ==> list@.take(m as int).contains(q as usize)) by {
                        if list@.take(m + 1).contains(q as usize) {
                            let a = choose|a: int| 0 <= a < m + 1 && #[trigger] list@.take(m + 1)[a] == q as usize;
                            assert(a != m);
                            assert(list@.take(m as int)[a] == q as usize);
                        }
                    }
                    assert(list@.take(m as int).contains(q as usize) ==> list@.take(m + 1).contains(q as usize)) by {
                        if list@.take(m as int).contains(q as usize) {
                            let a = choose|a: int| 0 <= a < m && #[trigger] list@.take(m as int)[a] == q as usize;
                            assert(list@.take(m + 1)[a] == q as usize);
                        }
                    }
                }
            }
        }
        m = m + 1;
    }
    assert(list@.take(m as int) =~= list@);
}

} // verus!

verus! {

proof fn lemma_map_int_contains(list: Seq<usize>, j: int)
    requires
        0 <= j <= usize::MAX,
    ensures
        list.contains(j as usize) == list.map_values(|v: usize| v as int).contains(j),
{
    let p = list.map_values(|v: usize| v as int);
    if list.contains(j as usize) {
        let a = choose|a: int| 0 <= a < list.len() && list[a] == j as usize;
        assert(p[a] == j);
    }
    if p.contains(j) {
        let a = choose|a: int| 0 <= a < p.len() && p[a] == j;
        assert(list[a] == j as usize);
    }
}

/// Sets `row[j]` to the number of fingerprints candidate `i` shares with
/// candidate `j`, for every `j > i`, by walking the postings of the
/// fingerprints of candidate `i`.
fn count_row(candidates: &Vec<Candidate>, vocab: &Vec<String>, postings: &Vec<Vec<usize>>, i: usize, row: &mut Vec<usize>)
    requires
        0 <= i < candidates@.len(),
        old(row)@.len() == candidates@.len(),
        forall|j: int| 0 <= j < old(row)@.len() ==> (#[trigger] old(row)@[j]) == 0,
        crate::sorted::strictly_sorted(crate::config::string_views(vocab@)),
        crate::config::string_views(vocab@).to_set() == fingerprints_upto(candidates@, candidates@.len() as int),
        postings@.len() == vocab@.len(),
        forall|k: int| 0 <= k < postings@.len() ==> (#[trigger] postings@[k])@.map_values(|v: usize| v as int)
            == posting(candidates@, vocab@[k]@, candidates@.len() as int),
    ensures
        final(row)@.len() == candidates@.len(),
        forall|j: int| 0 <= j < final(row)@.len() ==> (#[trigger] final(row)@[j])
            == if j > i { shared_of(candidates@[i as int], candidates@[j]) as int } else { 0 },
{
    let ghost n = candidates@.len() as int;
    let ghost vs = crate::config::string_views(vocab@);
    let items = candidates[i].fingerprints.iter();
    let ghost its = crate::config::string_views(items@);
    let ghost fi = candidates@[i as int].fingerprints@;
    proof {
        crate::sorted::lemma_sorted_no_duplicates(its);
        crate::sorted::lemma_sorted_no_duplicates(vs);
    }
    let mut t: usize = 0;
    let count: usize = candidates.len();
    assert forall|j: int| 0 <= j < row@.len() implies (#[trigger] row@[j])
        == if j > i { its.take(0).to_set().intersect(candidates@[j].fingerprints@).len() as int } else { 0 } by {
        assert(its.take(0).to_set().intersect(candidates@[j].fingerprints@) =~= Set::<Seq<char>>::empty());
    }
    while t < items.len()
        invariant
            n == candidates@.len(),
            n == count,
            0 <= i < n,
            vs == crate::config::string_views(vocab@),
            its == crate::config::string_views(items@),
            its.no_duplicates(),
            its.to_set() == fi,
            fi == candidates@[i as int].fingerprints@,
            crate::sorted::strictly_sorted(vs),
            vs.to_set() == fingerprints_upto(candidates@, n),
            postings@.len() == vocab@.len(),
            forall|k: int| 0 <= k < postings@.len() ==> (#[trigger] postings@[k])@.map_values(|v: usize| v as int)
                == posting(candidates@, vs[k], n),
            0 <= t <= its.len(),
            row@.len() == n,
            forall|j: int| 0 <= j < row@.len() ==> (#[trigger] row@[j])
                == if j > i { its.take(t as int).to_set().intersect(candidates@[j].fingerprints@).len() as int } else { 0 },
        decreases its.len() - t,
    {
        let ghost f = its[t as int];
        let (found, k) = crate::sorted::sorted_search(vocab, items[t].as_str());
        proof {
            assert(its.to_set().contains(f));
            lemma_fingerprints_upto(candidates@, n, f);
            assert(vs.to_set().contains(f));
            assert(vs.contains(f));
            assert(vs[k as int] == f);
            lemma_posting(candidates@, f, n);
        }
        let list = &postings[k];
        let ghost p = list@.map_values(|v: usize| v as int);
        proof {
            assert(p == posting(candidates@, f, n));
            assert forall|a: int, b: int| 0 <= a < b < list@.len() implies list@[a] < list@[b] by {
                assert(p[a] < p[b]);
            }
            assert forall|a: int| 0 <= a < list@.len() implies (#[trigger] list@[a]) < row@.len() by {
                assert(0 <= p[a] < n);
            }
            assert forall|j: int| 0 <= j < row@.len() && j > i && list@.contains(j as usize) implies (#[trigger] row@[j]) < usize::MAX by {
                let s = its.take(t as int).to_set();
                its.take(t as int).lemma_cardinality_of_set();
                vstd::set_lib::lemma_len_intersect(s, candidates@[j].fingerprints@);
            }
        }
        let ghost before = row@;
        add_posting(row, list, i);
        proof {
            assert(its.take(t + 1) =~= its.take(t as int).push(f));
            assert(!its.take(t as int).contains(f)) by {
                if its.take(t as int).contains(f) {
                    let a = choose|a: int| 0 <= a < t && #[trigger] its.take(t as int)[a] == f;
                    assert(its[a] == its[t as int]);
                }
            }
            assert forall|j: int| 0 <= j < row@.len() implies (#[trigger] row@[j])
                == if j > i { its.take(t + 1).to_set().intersect(candidates@[j].fingerprints@).len() as int } else { 0 } by {
                if j > i {
                    let fj = candidates@[j].fingerprints@;
                    let s0 = its.take(t as int).to_set().intersect(fj);
                    let s1 = its.take(t + 1).to_set().intersect(fj);
                    lemma_map_int_contains(list@, j);
                    assert(p.contains(j) == fj.contains(f));
                    if fj.contains(f) {
                        assert(s1 =~= s0.insert(f));
                        assert(!s0.contains(f));
                    } else {
                        assert(s1 =~= s0);
                    }
                }
            }
        }
        t = t + 1;
    }
    proof {
        assert(its.take(t as int) =~= its);
    }
}

/// For every pair `i < j` of candidates that share at least one fingerprint,
/// in order of `i`, then `j`: both indices and the number of fingerprints
/// they share. Found through an inverted index from each fingerprint to the
/// candidates that have it.
fn shared_fingerprint_counts(candidates: &Vec<Candidate>) -> (r: Vec<(usize, usize, usize)>)
    ensures
        counts_for(candidates@, spec_shared_pairs(candidates@), r@),
{
    let ghost cands = candidates@;
    let ghost n = candidates@.len() as int;
    let ghost p = |i: int, j: int| nonzero_pair(cands, i, j);
    let count = candidates.len();
    let vocab = vocabulary(candidates);
    let postings = postings_for(candidates, &vocab);
    let mut row: Vec<usize> = Vec::new();
    let mut z: usize = 0;
    while z < count
        invariant
            count == candidates@.len(),
            0 <= z <= count,
            row@.len() == z,
            forall|j: int| 0 <= j < row@.len() ==> (#[trigger] row@[j]) == 0,
        decreases count - z,
    {
        row.push(0);
        z = z + 1;
    }
    let mut counts: Vec<(usize, usize, usize)> = Vec::new();
    let mut i: usize = 0;
    while i < count
        invariant
            cands == candidates@,
            n == cands.len(),
            count == n,
            p == (|i: int, j: int| nonzero_pair(cands, i, j)),
            crate::sorted::strictly_sorted(crate::config::string_views(vocab@)),
            crate::config::string_views(vocab@).to_set() == fingerprints_upto(candidates@, n),
            postings@.len() == vocab@.len(),
            forall|k: int| 0 <= k < postings@.len() ==> (#[trigger] postings@[k])@.map_values(|v: usize| v as int)
                == posting(candidates@, vocab@[k]@, n),
            0 <= i <= n,
            row@.len() == n,
            forall|j: int| 0 <= j < row@.len() ==> (#[trigger] row@[j]) == 0,
            counts_for(cands, grid_pairs(n, i as int, p), counts@),
        decreases n - i,
    {
        count_row(candidates, &vocab, &postings, i, &mut row);
        let ghost before = grid_pairs(n, i as int, p);
        let mut j: usize = i + 1;
        while j < count
            invariant
                cands == candidates@,
                n == cands.len(),
                count == n,
                p == (|i: int, j: int| nonzero_pair(cands, i, j)),
                0 <= i < n,
                i + 1 <= j <= n,
                row@.len() == n,
                forall|q: int| 0 <= q < j ==> (#[trigger] row@[q]) == 0,
                forall|q: int| j <= q < n ==> (#[trigger] row@[q]) == shared_of(cands[i as int], cands[q]),
                before == grid_pairs(n, i as int, p),
                counts_for(cands, before + row_pairs(i as int, j as int, p), counts@),
            decreases n - j,
        {
            let shared = row[j];
            let ghost pairs = before + row_pairs(i as int, j as int, p);
            let ghost next = before + row_pairs(i as int, j + 1, p);
            if shared > 0 {
                counts.push((i, j, shared));
                row.set(j, 0);
                proof {
                    assert(p(i as int, j as int));
                    assert(next =~= pairs.push((i as int, j as int)));
                }
            } else {
                proof {
                    assert(!p(i as int, j as int));
                    assert(next =~= pairs);
                }
            }
            j = j + 1;
        }
        proof {
            assert(grid_pairs(n, i + 1, p) == before + row_pairs(i as int, n, p));
        }
        i = i + 1;
    }
    counts
}

proof fn lemma_row_pairs_bounds(i: int, j_end: int, p: spec_fn(int, int) -> bool)
    ensures
        forall|k: int| 0 <= k < row_pairs(i, j_end, p).len() ==> {
            &&& (#[trigger] row_pairs(i, j_end, p)[k]).0 == i
            &&& i < row_pairs(i, j_end, p)[k].1 < j_end
        },
    decreases j_end - i,
{
    if j_end > i + 1 {
        lemma_row_pairs_bounds(i, j_end - 1, p);
        let a = row_pairs(i, j_end - 1, p);
        assert forall|k: int| 0 <= k < row_pairs(i, j_end, p).len() implies {
            &&& (#[trigger] row_pairs(i, j_end, p)[k]).0 == i
            &&& i < row_pairs(i, j_end, p)[k].1 < j_end
        } by {
            if k < a.len() {
                assert(row_pairs(i, j_end, p)[k] == a[k]);
            }
        }
    }
}

proof fn lemma_filter_take<A>(s: Seq<A>, k: int, q: spec_fn(A) -> bool)
    requires
        0 <= k < s.len(),
    ensures
        s.take(k + 1).filter(q) == if q(s[k]) { s.take(k).filter(q).push(s[k]) } else { s.take(k).filter(q) },
{
    reveal(Seq::filter);
    assert(s.take(k + 1).drop_last() =~= s.take(k));
    assert(s.take(k + 1).last() == s[k]);
}

proof fn lemma_grid_pairs_bounds(n: int, i_end: int, p: spec_fn(int, int) -> bool)
    ensures
        forall|k: int| 0 <= k < grid_pairs(n, i_end, p).len() ==> {
            &&& 0 <= (#[trigger] grid_pairs(n, i_end, p)[k]).0 < i_end
            &&& grid_pairs(n, i_end, p)[k].0 < grid_pairs(n, i_end, p)[k].1 < n
        },
    decreases i_end,
{
    if i_end > 0 {
        lemma_grid_pairs_bounds(n, i_end - 1, p);
        lemma_row_pairs_bounds(i_end - 1, n, p);
        let a = grid_pairs(n, i_end - 1, p);
        let b = row_pairs(i_end - 1, n, p);
        assert forall|k: int| 0 <= k < grid_pairs(n, i_end, p).len() implies {
            &&& 0 <= (#[trigger] grid_pairs(n, i_end, p)[k]).0 < i_end
            &&& grid_pairs(n, i_end, p)[k].0 < grid_pairs(n, i_end, p)[k].1 < n
        } by {
            if k < a.len() {
                assert(grid_pairs(n, i_end, p)[k] == a[k]);
            } else {
                assert(grid_pairs(n, i_end, p)[k] == b[k - a.len()]);
            }
        }
    }
}

/// The pairs of `pairs` for which `q` holds.
pub open spec fn pair_filter(q: spec_fn(int, int) -> bool) -> spec_fn((int, int)) -> bool {
    |pr: (int, int)| q(pr.0, pr.1)
}

proof fn lemma_filter_row(i: int, j_end: int, p: spec_fn(int, int) -> bool, q: spec_fn(int, int) -> bool)
    requires
        forall|a: int, b: int| #[trigger] q(a, b) ==> p(a, b),
    ensures
        row_pairs(i, j_end, p).filter(pair_filter(q)) == row_pairs(i, j_end, q),
    decreases j_end - i,
{
    if j_end > i + 1 {
        lemma_filter_row(i, j_end - 1, p, q);
        let last = if p(i, j_end - 1) { seq![(i, j_end - 1)] } else { Seq::<(int, int)>::empty() };
        Seq::filter_distributes_over_add(row_pairs(i, j_end - 1, p), last, pair_filter(q));
        reveal_with_fuel(Seq::filter, 2);
        assert(last.filter(pair_filter(q)) =~= if q(i, j_end - 1) { seq![(i, j_end - 1)] } else { Seq::<(int, int)>::empty() }) by {
            if p(i, j_end - 1) {
                assert(last.drop_last() =~= Seq::<(int, int)>::empty());
            }
        }
    } else {
        assert(row_pairs(i, j_end, p).filter(pair_filter(q)) =~= Seq::<(int, int)>::empty());
    }
}

proof fn lemma_filter_grid(n: int, i_end: int, p: spec_fn(int, int) -> bool, q: spec_fn(int, int) -> bool)
    requires
        forall|a: int, b: int| #[trigger] q(a, b) ==> p(a, b),
    ensures
        grid_pairs(n, i_end, p).filter(pair_filter(q)) == grid_pairs(n, i_end, q),
    decreases i_end,
{
    if i_end > 0 {
        lemma_filter_grid(n, i_end - 1, p, q);
        lemma_filter_row(i_end - 1, n, p, q);
        Seq::filter_distributes_over_add(grid_pairs(n, i_end - 1, p), row_pairs(i_end - 1, n, p), pair_filter(q));
    } else {
        assert(grid_pairs(n, i_end, p).filter(pair_filter(q)) =~= Seq::<(int, int)>::empty());
    }
}

/// Under a threshold above zero, a reported pair shares at least one
/// fingerprint: a score of zero never reaches such a threshold.
pub proof fn lemma_reported_pairs_share(config: Config, cands: Seq<Candidate>, i: int, j: int)
    requires
        config.threshold.wf(),
        config.threshold.numerator > 0,
        reported(config, cands, i, j),
    ensures
        nonzero_pair(cands, i, j),
{
    let t = config.threshold;
    let s = shared_of(cands[i], cands[j]);
    let d = total_of(cands[i], cands[j]);
    if s == 0 {
        assert(d != 0);
        assert(s * t.denominator == 0);
        assert(t.numerator * d > 0) by (nonlinear_arith)
            requires
                t.numerator > 0,
                d > 0,
        ;
    }
}

/// Under a threshold above zero, the pairs that comparing every pair reports
/// are exactly those, among the pairs that share a fingerprint, that are
/// reported: so walking the inverted index loses no pair.
pub proof fn lemma_index_finds_every_reported_pair(config: Config, cands: Seq<Candidate>)
    requires
        config.threshold.wf(),
        config.threshold.numerator > 0,
    ensures
        spec_shared_pairs(cands).filter(pair_filter(|i: int, j: int| reported(config, cands, i, j)))
            == spec_reported_pairs(config, cands),
{
    let p = |i: int, j: int| nonzero_pair(cands, i, j);
    let q = |i: int, j: int| reported(config, cands, i, j);
    assert forall|a: int, b: int| #[trigger] q(a, b) implies p(a, b) by {
        lemma_reported_pairs_share(config, cands, a, b);
    }
    lemma_filter_grid(cands.len() as int, cands.len() as int, p, q);
}

/// A pair whose highest possible score is below the threshold has a score
/// below it: skipping such pairs before counting what they share loses none.
pub proof fn lemma_pruning_sound(left: Candidate, right: Candidate, t: Threshold)
    requires
        t.wf(),
        below(
            min_nat(left.fingerprints@.len(), right.fingerprints@.len()),
            max_nat(left.fingerprints@.len(), right.fingerprints@.len()),
            t,
        ),
    ensures
        below(shared_of(left, right), total_of(left, right), t),
{
    crate::fingerprints::lemma_overlap_bounds(left.fingerprints, right.fingerprints);
    let lo = min_nat(left.fingerprints@.len(), right.fingerprints@.len());
    let hi = max_nat(left.fingerprints@.len(), right.fingerprints@.len());
    let s = shared_of(left, right);
    let d = total_of(left, right);
    if hi == 0 {
        crate::fingerprints::lemma_union_len(left.fingerprints, right.fingerprints);
        assert(d == 0);
    } else {
        assert(s <= lo);
        assert(hi <= d);
        assert(s * t.denominator < t.numerator * d) by (nonlinear_arith)
            requires
                s <= lo,
                hi <= d,
                lo * t.denominator < t.numerator * hi,
        ;
    }
}

/// Two candidates with the same fingerprints score one, which reaches every
/// threshold up to one: a renamed copy is always reported when the two may be
/// compared.
pub proof fn lemma_equal_fingerprints_score_one(left: Candidate, right: Candidate, t: Threshold)
    requires
        t.wf(),
        t.numerator <= t.denominator,
        left.fingerprints@ == right.fingerprints@,
        left.fingerprints@.len() > 0,
    ensures
        shared_of(left, right) == total_of(left, right),
        meets(shared_of(left, right), total_of(left, right), t),
{
    let f = left.fingerprints@;
    assert(f.intersect(f) =~= f);
    assert(f.union(f) =~= f);
    let n = f.len();
    assert(n * t.denominator >= t.numerator * n) by (nonlinear_arith)
        requires
            t.numerator <= t.denominator,
    ;
}

/// Compares the candidates: every pair when the threshold is zero, otherwise
/// only the pairs that share a fingerprint. Reports the pairs `i < j` that may
/// be compared, whose highest possible score does not rule the threshold out,
/// and whose score reaches it, in order of `i`, then `j`.
pub fn compare_candidates(config: &Config, candidates: &Vec<Candidate>) -> (r: Vec<DuplicateCandidate>)
    requires
        config.threshold.wf(),
    ensures
        reports_pairs(candidates@, spec_reported_pairs(*config, candidates@), r@),
{
    if config.threshold.numerator == 0 {
        return compare_all_pairs(config, candidates);
    }
    let ghost cands = candidates@;
    let ghost q = pair_filter(|i: int, j: int| reported(*config, cands, i, j));
    let ghost sp = spec_shared_pairs(cands);
    let counts = shared_fingerprint_counts(candidates);
    proof {
        lemma_grid_pairs_bounds(cands.len() as int, cands.len() as int, |i: int, j: int| nonzero_pair(cands, i, j));
    }
    let mut duplicates: Vec<DuplicateCandidate> = Vec::new();
    let mut k: usize = 0;
    while k < counts.len()
        invariant
            cands == candidates@,
            config.threshold.wf(),
            q == pair_filter(|i: int, j: int| reported(*config, cands, i, j)),
            sp == spec_shared_pairs(cands),
            counts_for(cands, sp, counts@),
            forall|m: int| 0 <= m < sp.len() ==> 0 <= (#[trigger] sp[m]).0 < sp[m].1 < cands.len(),
            0 <= k <= counts@.len(),
            reports_pairs(cands, sp.take(k as int).filter(q), duplicates@),
        decreases counts@.len() - k,
    {
        let (left_index, right_index, shared) = counts[k];
        let ghost pr = sp[k as int];
        proof {
            assert(counts@[k as int].0 == pr.0);
            assert(0 <= pr.0 < pr.1 < cands.len());
            lemma_filter_take(sp, k as int, q);
        }
        let ghost before = sp.take(k as int).filter(q);
        let left = &candidates[left_index];
        let right = &candidates[right_index];
        let keep = if !compatible(config, left, right) {
            false
        } else {
            let (lo, hi) = max_possible_score(left, right);
            !below_threshold(lo, hi, config.threshold)
        };
        if keep {
            let l = left.fingerprints.len();
            let r = right.fingerprints.len();
            proof {
                crate::fingerprints::lemma_union_len(left.fingerprints, right.fingerprints);
                crate::fingerprints::lemma_overlap_bounds(left.fingerprints, right.fingerprints);
            }
            let total = l + (r - shared);
            if !below_threshold(shared, total, config.threshold) {
                let d = duplicate(left, right, shared, total);
                duplicates.push(d);
                proof {
                    assert(q(pr));
                    assert(sp.take(k + 1).filter(q) == before.push(pr));
                }
            } else {
                proof {
                    assert(!q(pr));
                    assert(sp.take(k + 1).filter(q) == before);
                }
            }
        } else {
            proof {
                assert(!q(pr));
                assert(sp.take(k + 1).filter(q) == before);
            }
        }
        k = k + 1;
    }
    proof {
        assert(sp.take(k as int) =~= sp);
        lemma_index_finds_every_reported_pair(*config, cands);
    }
    duplicates
}

/// The first `max` entries of `ds` when a limit is given, else all of them.
pub open spec fn limited(ds: Seq<DuplicateCandidate>, max: Option<usize>) -> Seq<DuplicateCandidate> {
    match max {
        Some(m) => if m < ds.len() { ds.take(m as int) } else { ds },
        None => ds,
    }
}

/// `ranked_all` holds the entries of `found` in report order, entries of equal
/// rank in the order found.
pub open spec fn ranked_from(found: Seq<DuplicateCandidate>, ranked_all: Seq<DuplicateCandidate>) -> bool {
    &&& ranked(ranked_all)
    &&& exists|perm: Seq<int>| stable_rearrangement(ranked_all, found, perm)
}

/// Puts the entries in report order and keeps the first `max_candidates` of
/// them when the configuration sets a limit.
pub fn rank_duplicates(config: &Config, duplicates: Vec<DuplicateCandidate>) -> (r: Vec<DuplicateCandidate>)
    ensures
        exists|all: Seq<DuplicateCandidate>| ranked_from(duplicates@, all) && r@ == limited(all, config.max_candidates),
{
    let mut duplicates = duplicates;
    let ghost found = duplicates@;
    sort_duplicates(&mut duplicates);
    let ghost all = duplicates@;
    if let Some(max) = config.max_candidates {
        duplicates.truncate(max);
    }
    assert(ranked_from(found, all) && duplicates@ == limited(all, config.max_candidates));
    duplicates
}

/// `report` is what comparing the candidates `cands` gives under `config`:
/// the reported pairs, in report order, limited as configured.
pub open spec fn report_of(config: Config, cands: Seq<Candidate>, report: Seq<DuplicateCandidate>) -> bool {
    exists|found: Seq<DuplicateCandidate>, all: Seq<DuplicateCandidate>|
        #![trigger reports_pairs(cands, spec_reported_pairs(config, cands), found), ranked_from(found, all)]
        reports_pairs(cands, spec_reported_pairs(config, cands), found)
        && ranked_from(found, all)
        && report == limited(all, config.max_candidates)
}

/// Finds the duplicate candidates among the files, each read from the source
/// text at the same index. Fails with the error of the first file that
/// cannot be parsed.
pub fn find_duplicates(config: &Config, files: &Vec<SourceFile>, sources: &Vec<String>) -> (r: Result<Report, DryerError>)
    requires
        config.threshold.wf(),
        files@.len() == sources@.len(),
    ensures
        r is Ok <==> forall|i: int| 0 <= i < files@.len() ==> scan_ok(#[trigger] files@[i], sources@[i]@),
        r matches Ok(rep) ==> exists|cands: Seq<Candidate>|
            #[trigger] scanned_all(files@, sources@, *config, cands) && report_of(*config, cands, rep.candidates@),
        r matches Err(e) ==> exists|i: int| 0 <= i < files@.len() && !scan_ok(#[trigger] files@[i], sources@[i]@)
            && (forall|j: int| 0 <= j < i ==> scan_ok(#[trigger] files@[j], sources@[j]@))
            && scan_error_matches(files@[i], sources@[i]@, e),
{
    let candidates = match scan_candidates(config, files, sources) {
        Ok(candidates) => candidates,
        Err(e) => return Err(e),
    };
    let duplicates = compare_candidates(config, &candidates);
    let ghost found = duplicates@;
    let ranked_duplicates = rank_duplicates(config, duplicates);
    proof {
        let all = choose|all: Seq<DuplicateCandidate>| ranked_from(found, all) && ranked_duplicates@ == limited(all, config.max_candidates);
        assert(reports_pairs(candidates@, spec_reported_pairs(*config, candidates@), found));
        assert(ranked_from(found, all));
        assert(report_of(*config, candidates@, ranked_duplicates@));
        assert(scanned_all(files@, sources@, *config, candidates@));
    }
    let report = Report { candidates: ranked_duplicates };
    assert(report_of(*config, candidates@, report.candidates@));
    assert(scanned_all(files@, sources@, *config, candidates@));
    Ok(report)
}

proof fn lemma_row_pairs_agree(i: int, j_end: int, n: int, p1: spec_fn(int, int) -> bool, p2: spec_fn(int, int) -> bool)
    requires
        0 <= i,
        j_end <= n,
        forall|a: int, b: int| 0 <= a < b < n ==> #[trigger] p1(a, b) == p2(a, b),
    ensures
        row_pairs(i, j_end, p1) == row_pairs(i, j_end, p2),
    decreases j_end - i,
{
    if j_end > i + 1 {
        lemma_row_pairs_agree(i, j_end - 1, n, p1, p2);
        assert(p1(i, j_end - 1) == p2(i, j_end - 1));
    }
}

proof fn lemma_grid_pairs_agree(n: int, i_end: int, p1: spec_fn(int, int) -> bool, p2: spec_fn(int, int) -> bool)
    requires
        i_end <= n,
        forall|a: int, b: int| 0 <= a < b < n ==> #[trigger] p1(a, b) == p2(a, b),
    ensures
        grid_pairs(n, i_end, p1) == grid_pairs(n, i_end, p2),
    decreases i_end,
{
    if i_end > 0 {
        lemma_grid_pairs_agree(n, i_end - 1, p1, p2);
        lemma_row_pairs_agree(i_end - 1, n, n, p1, p2);
    }
}

/// A limit on the number of reported pairs keeps a prefix: comparing the
/// same candidates (one by one alike) under a configuration with
/// `max_candidates` set reports the first `max_candidates` pairs (or all, if
/// fewer) of what the same configuration reports without a limit, in the
/// same order.
pub proof fn lemma_limited_report_is_prefix(
    config: Config,
    unlimited: Config,
    cands: Seq<Candidate>,
    cands2: Seq<Candidate>,
    limited_report: Seq<DuplicateCandidate>,
    full_report: Seq<DuplicateCandidate>,
)
    requires
        unlimited.threshold == config.threshold,
        unlimited.cross_language == config.cross_language,
        unlimited.max_candidates is None,
        same_cands(cands, cands2),
        report_of(config, cands, limited_report),
        report_of(unlimited, cands2, full_report),
    ensures
        limited_report.len() == match config.max_candidates {
            Some(m) => if m < full_report.len() { m as nat } else { full_report.len() },
            None => full_report.len(),
        },
        forall|k: int| 0 <= k < limited_report.len() ==> dup_view(#[trigger] limited_report[k]) == dup_view(full_report[k]),
{
    let (found1, all1) = choose|found: Seq<DuplicateCandidate>, all: Seq<DuplicateCandidate>|
        #![trigger reports_pairs(cands, spec_reported_pairs(config, cands), found), ranked_from(found, all)]
        reports_pairs(cands, spec_reported_pairs(config, cands), found)
        && ranked_from(found, all)
        && limited_report == limited(all, config.max_candidates);
    let (found2, all2) = choose|found: Seq<DuplicateCandidate>, all: Seq<DuplicateCandidate>|
        #![trigger reports_pairs(cands2, spec_reported_pairs(unlimited, cands2), found), ranked_from(found, all)]
        reports_pairs(cands2, spec_reported_pairs(unlimited, cands2), found)
        && ranked_from(found, all)
        && full_report == limited(all, unlimited.max_candidates);
    let n = cands.len() as int;
    let p1 = |i: int, j: int| reported(config, cands, i, j);
    let p2 = |i: int, j: int| reported(unlimited, cands2, i, j);
    assert forall|a: int, b: int| 0 <= a < b < n implies #[trigger] p1(a, b) == p2(a, b) by {
        assert(cand_view(cands[a]) == cand_view(cands2[a]));
        assert(cand_view(cands[b]) == cand_view(cands2[b]));
    }
    lemma_grid_pairs_agree(n, n, p1, p2);
    let pairs = spec_reported_pairs(config, cands);
    assert(pairs == spec_reported_pairs(unlimited, cands2));
    lemma_grid_pairs_bounds(n, n, p1);
    assert(same_views(found1, found2)) by {
        assert forall|k: int| 0 <= k < found1.len() implies dup_view(#[trigger] found1[k]) == dup_view(found2[k]) by {
            let (i, j) = pairs[k];
            assert(0 <= i < j < n);
            assert(duplicate_of(cands[i], cands[j], found1[k]));
            assert(duplicate_of(cands2[i], cands2[j], found2[k]));
            assert(cand_view(cands[i]) == cand_view(cands2[i]));
            assert(cand_view(cands[j]) == cand_view(cands2[j]));
        }
    }
    let perm1 = choose|perm: Seq<int>| stable_rearrangement(all1, found1, perm);
    let perm2 = choose|perm: Seq<int>| stable_rearrangement(all2, found2, perm);
    lemma_ranking_unique(all1, found1, perm1, all2, found2, perm2);
    assert(full_report == all2);
    assert forall|k: int| 0 <= k < limited_report.len() implies dup_view(#[trigger] limited_report[k]) == dup_view(full_report[k]) by {
        assert(limited_report[k] == all1[k]);
    }
}

/// Two runs over the same files, one with `max_candidates` set and one
/// without, and otherwise the same settings: the limited run's report is the
/// first `max_candidates` pairs (or all, if fewer) of the unlimited run's, in
/// the same order. The two reports are any that `find_duplicates` may give.
pub proof fn lemma_limit_across_runs(
    config: Config,
    unlimited: Config,
    files: Seq<SourceFile>,
    sources: Seq<String>,
    limited_report: Seq<DuplicateCandidate>,
    full_report: Seq<DuplicateCandidate>,
)
    requires
        unlimited.threshold == config.threshold,
        unlimited.cross_language == config.cross_language,
        same_scan_settings(config, unlimited),
        unlimited.max_candidates is None,
        exists|cands: Seq<Candidate>|
            #[trigger] scanned_all(files, sources, config, cands) && report_of(config, cands, limited_report),
        exists|cands: Seq<Candidate>|
            #[trigger] scanned_all(files, sources, unlimited, cands) && report_of(unlimited, cands, full_report),
    ensures
        limited_report.len() == match config.max_candidates {
            Some(m) => if m < full_report.len() { m as nat } else { full_report.len() },
            None => full_report.len(),
        },
        forall|k: int| 0 <= k < limited_report.len() ==> dup_view(#[trigger] limited_report[k]) == dup_view(full_report[k]),
{
    let cands1 = choose|cands: Seq<Candidate>|
        #[trigger] scanned_all(files, sources, config, cands) && report_of(config, cands, limited_report);
    let cands2 = choose|cands: Seq<Candidate>|
        #[trigger] scanned_all(files, sources, unlimited, cands) && report_of(unlimited, cands, full_report);
    lemma_scan_unique(files, sources, config, unlimited, cands1, cands2);
    lemma_limited_report_is_prefix(config, unlimited, cands1, cands2, limited_report, full_report);
}

} // verus!

use std::cmp::Ordering;

use vstd::prelude::*;

use crate::order::{str_less, str_lt, lemma_str_lt_irreflexive, lemma_str_lt_transitive, lemma_str_lt_total, lemma_str_lt_asymmetric};
use crate::candidates::opt_view;
use crate::report::{DuplicateCandidate, Location};
use crate::text::str_eq;

verus! {

/// The numerator of a pair's score: the shared fingerprints, or zero when
/// the pair has no fingerprints at all.
pub open spec fn score_num(d: DuplicateCandidate) -> nat {
    if d.total_fingerprints == 0 { 0 } else { d.shared_fingerprints as nat }
}

/// The denominator of a pair's score: the fingerprints of both, or one when
/// there are none.
pub open spec fn score_den(d: DuplicateCandidate) -> nat {
    if d.total_fingerprints == 0 { 1 } else { d.total_fingerprints as nat }
}

/// `a` has a higher score than `b`.
pub open spec fn score_above(a: DuplicateCandidate, b: DuplicateCandidate) -> bool {
    score_num(a) * score_den(b) > score_num(b) * score_den(a)
}

/// `a` and `b` have the same score.
pub open spec fn score_level(a: DuplicateCandidate, b: DuplicateCandidate) -> bool {
    score_num(a) * score_den(b) == score_num(b) * score_den(a)
}

/// `a` is reported before `b`: by score, highest first; then by the left
/// file and line; then by the right file and line.
pub open spec fn dup_before(a: DuplicateCandidate, b: DuplicateCandidate) -> bool {
    if !score_level(a, b) {
        score_above(a, b)
    } else if a.left.file@ != b.left.file@ {
        str_lt(a.left.file@, b.left.file@)
    } else if a.left.start_line != b.left.start_line {
        a.left.start_line < b.left.start_line
    } else if a.right.file@ != b.right.file@ {
        str_lt(a.right.file@, b.right.file@)
    } else {
        a.right.start_line < b.right.start_line
    }
}

proof fn lemma_ratio_order(na: nat, da: nat, nb: nat, db: nat, nc: nat, dc: nat)
    requires
        da > 0,
        db > 0,
        dc > 0,
        na * db >= nb * da,
        nb * dc >= nc * db,
    ensures
        na * dc >= nc * da,
        (na * db > nb * da || nb * dc > nc * db) ==> na * dc > nc * da,
{
    assert(na * db * dc >= nb * da * dc) by (nonlinear_arith)
        requires
            na * db >= nb * da,
    ;
    assert(nb * dc * da >= nc * db * da) by (nonlinear_arith)
        requires
            nb * dc >= nc * db,
    ;
    assert(db * (na * dc) >= db * (nc * da)) by (nonlinear_arith)
        requires
            na * db * dc >= nb * da * dc,
            nb * dc * da >= nc * db * da,
    ;
    assert(na * dc >= nc * da) by (nonlinear_arith)
        requires
            db > 0,
            db * (na * dc) >= db * (nc * da),
    ;
    if na * db > nb * da || nb * dc > nc * db {
        assert(db * (na * dc) > db * (nc * da)) by (nonlinear_arith)
            requires
                na * db >= nb * da,
                nb * dc >= nc * db,
                na * db > nb * da || nb * dc > nc * db,
                da > 0,
                dc > 0,
        ;
        assert(na * dc > nc * da) by (nonlinear_arith)
            requires
                db > 0,
                db * (na * dc) > db * (nc * da),
        ;
    }
}

proof fn lemma_score_order(a: DuplicateCandidate, b: DuplicateCandidate, c: DuplicateCandidate)
    ensures
        (score_above(a, b) || score_level(a, b)) && (score_above(b, c) || score_level(b, c)) ==> {
            &&& score_above(a, c) || score_level(a, c)
            &&& (score_above(a, b) || score_above(b, c)) ==> score_above(a, c)
        },
{
    if (score_above(a, b) || score_level(a, b)) && (score_above(b, c) || score_level(b, c)) {
        lemma_ratio_order(score_num(a), score_den(a), score_num(b), score_den(b), score_num(c), score_den(c));
    }
}

/// Nothing is reported before itself.
pub proof fn lemma_dup_before_irreflexive(a: DuplicateCandidate)
    ensures
        !dup_before(a, a),
{
    lemma_str_lt_irreflexive(a.left.file@);
    lemma_str_lt_irreflexive(a.right.file@);
}

/// Being reported later is transitive: if `b` is not before `a`, nor `c`
/// before `b`, then `c` is not before `a`. So the order of reports is a total
/// preorder, the ground of a sort.
pub proof fn lemma_dup_before_total_preorder(a: DuplicateCandidate, b: DuplicateCandidate, c: DuplicateCandidate)
    ensures
        !dup_before(b, a) && !dup_before(c, b) ==> !dup_before(c, a),
        dup_before(a, b) ==> !dup_before(b, a),
        dup_before(a, b) && dup_before(b, c) ==> dup_before(a, c),
{
    lemma_score_order(a, b, c);
    lemma_score_order(c, b, a);
    lemma_score_order(b, a, c);
    lemma_score_order(c, a, b);
    lemma_score_order(a, c, b);
    lemma_score_order(b, c, a);
    lemma_score_order(a, b, a);
    lemma_score_order(b, a, b);
    lemma_str_lt_total(a.left.file@, b.left.file@);
    lemma_str_lt_total(b.left.file@, c.left.file@);
    lemma_str_lt_total(a.left.file@, c.left.file@);
    lemma_str_lt_total(a.right.file@, b.right.file@);
    lemma_str_lt_total(b.right.file@, c.right.file@);
    lemma_str_lt_total(a.right.file@, c.right.file@);
    if str_lt(c.left.file@, b.left.file@) && str_lt(b.left.file@, a.left.file@) {
        lemma_str_lt_transitive(c.left.file@, b.left.file@, a.left.file@);
    }
    if str_lt(a.left.file@, b.left.file@) && str_lt(b.left.file@, c.left.file@) {
        lemma_str_lt_transitive(a.left.file@, b.left.file@, c.left.file@);
    }
    if str_lt(c.right.file@, b.right.file@) && str_lt(b.right.file@, a.right.file@) {
        lemma_str_lt_transitive(c.right.file@, b.right.file@, a.right.file@);
    }
    if str_lt(a.right.file@, b.right.file@) && str_lt(b.right.file@, c.right.file@) {
        lemma_str_lt_transitive(a.right.file@, b.right.file@, c.right.file@);
    }
    if str_lt(a.left.file@, b.left.file@) {
        lemma_str_lt_asymmetric(a.left.file@, b.left.file@);
    }
    if str_lt(a.right.file@, b.right.file@) {
        lemma_str_lt_asymmetric(a.right.file@, b.right.file@);
    }
    if str_lt(b.left.file@, a.left.file@) {
        lemma_str_lt_asymmetric(b.left.file@, a.left.file@);
    }
    if str_lt(b.right.file@, a.right.file@) {
        lemma_str_lt_asymmetric(b.right.file@, a.right.file@);
    }
    if str_lt(a.left.file@, c.left.file@) {
        lemma_str_lt_asymmetric(a.left.file@, c.left.file@);
    }
    if str_lt(a.right.file@, c.right.file@) {
        lemma_str_lt_asymmetric(a.right.file@, c.right.file@);
    }
    if str_lt(c.left.file@, a.left.file@) {
        lemma_str_lt_asymmetric(c.left.file@, a.left.file@);
    }
    if str_lt(c.right.file@, a.right.file@) {
        lemma_str_lt_asymmetric(c.right.file@, a.right.file@);
    }
    if str_lt(b.left.file@, c.left.file@) {
        lemma_str_lt_asymmetric(b.left.file@, c.left.file@);
    }
    if str_lt(b.right.file@, c.right.file@) {
        lemma_str_lt_asymmetric(b.right.file@, c.right.file@);
    }
    if str_lt(c.left.file@, b.left.file@) {
        lemma_str_lt_asymmetric(c.left.file@, b.left.file@);
    }
    if str_lt(c.right.file@, b.right.file@) {
        lemma_str_lt_asymmetric(c.right.file@, b.right.file@);
    }
    lemma_str_lt_irreflexive(a.left.file@);
    lemma_str_lt_irreflexive(a.right.file@);
}

/// Whether `a` is reported before `b`.
pub fn comes_before(a: &DuplicateCandidate, b: &DuplicateCandidate) -> (r: bool)
    ensures
        r == dup_before(*a, *b),
{
    let (na, da): (u128, u128) = if a.total_fingerprints == 0 {
        (0, 1)
    } else {
        (a.shared_fingerprints as u128, a.total_fingerprints as u128)
    };
    let (nb, db): (u128, u128) = if b.total_fingerprints == 0 {
        (0, 1)
    } else {
        (b.shared_fingerprints as u128, b.total_fingerprints as u128)
    };
    proof {
        assert(na * db <= u64::MAX * u64::MAX) by (nonlinear_arith)
            requires
                na <= u64::MAX,
                db <= u64::MAX,
        ;
        assert(nb * da <= u64::MAX * u64::MAX) by (nonlinear_arith)
            requires
                nb <= u64::MAX,
                da <= u64::MAX,
        ;
    }
    let x = na * db;
    let y = nb * da;
    if x != y {
        return x > y;
    }
    if !str_eq(a.left.file.as_str(), b.left.file.as_str()) {
        return str_less(a.left.file.as_str(), b.left.file.as_str());
    }
    if a.left.start_line != b.left.start_line {
        return a.left.start_line < b.left.start_line;
    }
    if !str_eq(a.right.file.as_str(), b.right.file.as_str()) {
        return str_less(a.right.file.as_str(), b.right.file.as_str());
    }
    a.right.start_line < b.right.start_line
}

/// No entry of `s` comes before an entry ahead of it.
pub open spec fn ranked(s: Seq<DuplicateCandidate>) -> bool {
    forall|a: int, b: int| 0 <= a < b < s.len() ==> !dup_before(#[trigger] s[b], #[trigger] s[a])
}

/// `out` holds the entries of `orig`, entry `k` being `orig[perm[k]]`, each
/// once, and entries of equal rank keep the order they had in `orig`.
pub open spec fn stable_rearrangement(out: Seq<DuplicateCandidate>, orig: Seq<DuplicateCandidate>, perm: Seq<int>) -> bool {
    &&& out.len() == orig.len()
    &&& perm.len() == out.len()
    &&& forall|k: int| 0 <= k < out.len() ==> 0 <= #[trigger] perm[k] < orig.len() && out[k] == orig[perm[k]]
    &&& forall|a: int, b: int| 0 <= a < b < out.len() ==> #[trigger] perm[a] != #[trigger] perm[b]
    &&& forall|a: int, b: int| 0 <= a < b < out.len() && !dup_before(out[a], out[b]) ==> #[trigger] perm[a] < #[trigger] perm[b]
}

/// Sorts the entries in report order, keeping entries of equal rank in the
/// order they came.
pub fn sort_duplicates(v: &mut Vec<DuplicateCandidate>)
    ensures
        ranked(final(v)@),
        exists|perm: Seq<int>| stable_rearrangement(final(v)@, old(v)@, perm),
{
    let ghost orig = v@;
    let ghost n = v@.len() as int;
    let ghost mut perm: Seq<int> = Seq::empty();
    let mut out: Vec<DuplicateCandidate> = Vec::new();
    while v.len() > 0
        invariant
            n == orig.len(),
            0 <= v@.len() <= n,
            v@ == orig.take(v@.len() as int),
            out@.len() == n - v@.len(),
            perm.len() == out@.len(),
            forall|k: int| 0 <= k < out@.len() ==> v@.len() <= #[trigger] perm[k] < n && out@[k] == orig[perm[k]],
            forall|a: int, b: int| 0 <= a < b < out@.len() ==> #[trigger] perm[a] != #[trigger] perm[b],
            forall|a: int, b: int| 0 <= a < b < out@.len() && !dup_before(out@[a], out@[b]) ==> #[trigger] perm[a] < #[trigger] perm[b],
            ranked(out@),
        decreases v@.len(),
    {
        let ghost m = v@.len() as int;
        let x = v.pop().unwrap();
        proof {
            assert(v@ =~= orig.take(m - 1));
            assert(x == orig[m - 1]);
        }
        let mut p: usize = 0;
        while p < out.len() && comes_before(&out[p], &x)
            invariant
                0 <= p <= out@.len(),
                forall|k: int| 0 <= k < p ==> dup_before(#[trigger] out@[k], x),
            decreases out@.len() - p,
        {
            p = p + 1;
        }
        let ghost old_out = out@;
        let ghost old_perm = perm;
        proof {
            assert(p < old_out.len() ==> !dup_before(old_out[p as int], x));
        }
        out.insert(p, x);
        proof {
            perm = old_perm.insert(p as int, m - 1);
            let pi = p as int;
            assert forall|k: int| 0 <= k < out@.len() implies v@.len() <= #[trigger] perm[k] < n && out@[k] == orig[perm[k]] by {
                if k < pi {
                    assert(perm[k] == old_perm[k]);
                } else if k > pi {
                    assert(perm[k] == old_perm[k - 1]);
                }
            }
            assert forall|a: int, b: int| 0 <= a < b < out@.len() implies #[trigger] perm[a] != #[trigger] perm[b] by {
                if a != pi && b != pi {
                    let a0 = if a < pi { a } else { a - 1 };
                    let b0 = if b < pi { b } else { b - 1 };
                    assert(perm[a] == old_perm[a0]);
                    assert(perm[b] == old_perm[b0]);
                } else if a == pi {
                    assert(perm[b] == old_perm[b - 1]);
                } else {
                    assert(perm[a] == old_perm[a]);
                }
            }
            assert forall|a: int, b: int| 0 <= a < b < out@.len() && !dup_before(out@[a], out@[b]) implies #[trigger] perm[a] < #[trigger] perm[b] by {
                if a != pi && b != pi {
                    let a0 = if a < pi { a } else { a - 1 };
                    let b0 = if b < pi { b } else { b - 1 };
                    assert(perm[a] == old_perm[a0]);
                    assert(perm[b] == old_perm[b0]);
                    assert(out@[a] == old_out[a0]);
                    assert(out@[b] == old_out[b0]);
                } else if a == pi {
                    assert(perm[b] == old_perm[b - 1]);
                } else {
                    assert(out@[a] == old_out[a]);
                    assert(dup_before(old_out[a], x));
                }
            }
            assert forall|a: int, b: int| 0 <= a < b < out@.len() implies !dup_before(#[trigger] out@[b], #[trigger] out@[a]) by {
                if a != pi && b != pi {
                    let a0 = if a < pi { a } else { a - 1 };
                    let b0 = if b < pi { b } else { b - 1 };
                    assert(out@[a] == old_out[a0]);
                    assert(out@[b] == old_out[b0]);
                } else if a == pi {
                    assert(out@[b] == old_out[b - 1]);
                    if b - 1 > pi {
                        assert(!dup_before(old_out[b - 1], old_out[pi]));
                    }
                    lemma_dup_before_irreflexive(old_out[pi]);
                    lemma_dup_before_total_preorder(x, old_out[pi], old_out[b - 1]);
                } else {
                    assert(out@[a] == old_out[a]);
                    assert(dup_before(old_out[a], x));
                    lemma_dup_before_total_preorder(old_out[a], x, x);
                }
            }
        }
    }
    proof {
        assert(stable_rearrangement(out@, orig, perm));
    }
    *v = out;
}

/// How two entries compare in report order: `Less` when `left` is reported
/// first, `Greater` when `right` is, `Equal` when their rank is the same.
pub fn compare_duplicate_order(left: &DuplicateCandidate, right: &DuplicateCandidate) -> (r: Ordering)
    ensures
        (r is Less) == dup_before(*left, *right),
        (r is Greater) == dup_before(*right, *left),
{
    proof {
        lemma_dup_before_total_preorder(*left, *right, *left);
    }
    if comes_before(left, right) {
        Ordering::Less
    } else if comes_before(right, left) {
        Ordering::Greater
    } else {
        Ordering::Equal
    }
}

/// What a report line holds of a location, as plain values.
pub open spec fn location_view(l: Location) -> (Seq<char>, usize, usize, Seq<char>, Option<Seq<char>>) {
    (l.file@, l.start_line, l.end_line, l.kind@, opt_view(l.name))
}

/// What a report holds of a pair, as plain values.
pub open spec fn dup_view(d: DuplicateCandidate) -> (
    Seq<char>,
    (Seq<char>, usize, usize, Seq<char>, Option<Seq<char>>),
    (Seq<char>, usize, usize, Seq<char>, Option<Seq<char>>),
    (usize, usize, usize, usize),
) {
    (d.language@, location_view(d.left), location_view(d.right), (d.left_nodes, d.right_nodes, d.shared_fingerprints, d.total_fingerprints))
}

/// `a` and `b` hold the same pairs, one by one.
pub open spec fn same_views(a: Seq<DuplicateCandidate>, b: Seq<DuplicateCandidate>) -> bool {
    &&& a.len() == b.len()
    &&& forall|k: int| 0 <= k < a.len() ==> dup_view(#[trigger] a[k]) == dup_view(b[k])
}

/// The order in which a stable sort puts the entries at indices `a` and `b`
/// of `f`: by rank, then by index.
pub open spec fn index_before(f: Seq<DuplicateCandidate>, a: int, b: int) -> bool {
    dup_before(f[a], f[b]) || (!dup_before(f[b], f[a]) && a < b)
}

proof fn lemma_sorted_indices(out: Seq<DuplicateCandidate>, f: Seq<DuplicateCandidate>, perm: Seq<int>)
    requires
        ranked(out),
        stable_rearrangement(out, f, perm),
    ensures
        forall|k: int, l: int| 0 <= k < l < out.len() ==> index_before(f, #[trigger] perm[k], #[trigger] perm[l]),
{
    assert forall|k: int, l: int| 0 <= k < l < out.len() implies index_before(f, #[trigger] perm[k], #[trigger] perm[l]) by {
        assert(!dup_before(out[l], out[k]));
        assert(out[k] == f[perm[k]]);
        assert(out[l] == f[perm[l]]);
    }
}

proof fn lemma_perm_onto(perm: Seq<int>, n: int, v: int)
    requires
        perm.len() == n,
        forall|k: int| 0 <= k < n ==> 0 <= #[trigger] perm[k] < n,
        forall|a: int, b: int| 0 <= a < b < n ==> #[trigger] perm[a] != #[trigger] perm[b],
        0 <= v < n,
    ensures
        exists|k: int| 0 <= k < n && perm[k] == v,
{
    assert(perm.no_duplicates()) by {
        assert forall|a: int, b: int| 0 <= a < perm.len() && 0 <= b < perm.len() && a != b implies perm[a] != perm[b] by {
            if a < b {
                assert(perm[a] != perm[b]);
            } else {
                assert(perm[b] != perm[a]);
            }
        }
    }
    perm.unique_seq_to_set();
    vstd::set_lib::lemma_int_range(0, n);
    let range = vstd::set_lib::set_int_range(0, n);
    assert(perm.to_set().subset_of(range)) by {
        assert forall|x: int| perm.to_set().contains(x) implies range.contains(x) by {
            let k = choose|k: int| 0 <= k < perm.len() && perm[k] == x;
            assert(0 <= perm[k] < n);
        }
    }
    vstd::seq_lib::seq_to_set_is_finite(perm);
    vstd::set_lib::lemma_subset_equality(perm.to_set(), range);
    assert(range.contains(v));
    assert(perm.to_set().contains(v));
}

proof fn lemma_same_perm_prefix(
    out1: Seq<DuplicateCandidate>,
    f1: Seq<DuplicateCandidate>,
    perm1: Seq<int>,
    out2: Seq<DuplicateCandidate>,
    f2: Seq<DuplicateCandidate>,
    perm2: Seq<int>,
    k: int,
)
    requires
        same_views(f1, f2),
        ranked(out1),
        ranked(out2),
        stable_rearrangement(out1, f1, perm1),
        stable_rearrangement(out2, f2, perm2),
        0 <= k <= f1.len(),
    ensures
        forall|j: int| 0 <= j < k ==> perm1[j] == perm2[j],
    decreases k,
{
    if k > 0 {
        let n = f1.len() as int;
        lemma_same_perm_prefix(out1, f1, perm1, out2, f2, perm2, k - 1);
        lemma_sorted_indices(out1, f1, perm1);
        lemma_sorted_indices(out2, f2, perm2);
        let i = k - 1;
        let x = perm1[i];
        let y = perm2[i];
        lemma_perm_onto(perm1, n, y);
        lemma_perm_onto(perm2, n, x);
        let p = choose|p: int| 0 <= p < n && perm1[p] == y;
        let q = choose|q: int| 0 <= q < n && perm2[q] == x;
        if p < i {
            assert(perm2[p] == perm1[p]);
            assert(perm2[p] != perm2[i]);
        }
        if q < i {
            assert(perm1[q] == perm2[q]);
            assert(perm1[q] != perm1[i]);
        }
        if p > i && q > i {
            assert(index_before(f1, perm1[i], perm1[p]));
            assert(index_before(f2, perm2[i], perm2[q]));
            assert(dup_view(f1[x]) == dup_view(f2[x]));
            assert(dup_view(f1[y]) == dup_view(f2[y]));
            assert(index_before(f1, y, x));
            lemma_dup_before_total_preorder(f1[x], f1[y], f1[x]);
        }
    }
}

/// A ranking is unique: two stable sorts in report order of the same pairs
/// hold the same pairs in the same order.
pub proof fn lemma_ranking_unique(
    out1: Seq<DuplicateCandidate>,
    f1: Seq<DuplicateCandidate>,
    perm1: Seq<int>,
    out2: Seq<DuplicateCandidate>,
    f2: Seq<DuplicateCandidate>,
    perm2: Seq<int>,
)
    requires
        same_views(f1, f2),
        ranked(out1),
        ranked(out2),
        stable_rearrangement(out1, f1, perm1),
        stable_rearrangement(out2, f2, perm2),
    ensures
        same_views(out1, out2),
{
    lemma_same_perm_prefix(out1, f1, perm1, out2, f2, perm2, f1.len() as int);
    assert forall|k: int| 0 <= k < out1.len() implies dup_view(#[trigger] out1[k]) == dup_view(out2[k]) by {
        assert(perm1[k] == perm2[k]);
        assert(dup_view(f1[perm1[k]]) == dup_view(f2[perm1[k]]));
    }
}

} // verus!

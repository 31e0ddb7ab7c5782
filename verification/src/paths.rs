use vstd::prelude::*;

use crate::language::{path_segments, lemma_segments_nonempty};
use crate::text::chars_of;

verus! {

broadcast use vstd::seq_lib::group_seq_properties;

/// One component of a path, as `Path::components` reads it on Unix: a rank
/// (1 the root, 2 a leading `.`, 3 a `..`, 4 a name) and, for a name, its text.
pub type PathPart = (nat, Seq<char>);

/// The component a segment between separators makes, if any: empty segments
/// and `.` make none.
pub open spec fn segment_part(seg: Seq<char>) -> Option<PathPart> {
    if seg.len() == 0 || seg == seq!['.'] {
        None
    } else if seg == seq!['.', '.'] {
        Some((3nat, Seq::empty()))
    } else {
        Some((4nat, seg))
    }
}

/// The components that a run of segments makes, in order.
pub open spec fn segment_parts(segs: Seq<Seq<char>>) -> Seq<PathPart>
    decreases segs.len(),
{
    if segs.len() == 0 {
        Seq::empty()
    } else {
        segment_parts(segs.drop_last()) + match segment_part(segs.last()) {
            Some(c) => seq![c],
            None => Seq::empty(),
        }
    }
}

/// The components of a path: a root for a leading `/`, a current directory
/// for a leading `.` segment, then the named segments and `..`s.
pub closed spec fn path_parts(p: Seq<char>) -> Seq<PathPart> {
    let segs = path_segments(p);
    if p.len() > 0 && p[0] == '/' {
        seq![(1nat, Seq::<char>::empty())] + segment_parts(segs.drop_first())
    } else if segs[0] == seq!['.'] {
        seq![(2nat, Seq::<char>::empty())] + segment_parts(segs.drop_first())
    } else {
        segment_parts(segs)
    }
}

/// Lexicographic order on characters; for text held as UTF-8 it is the order
/// of the bytes, since UTF-8 keeps the order of code points.
pub open spec fn chars_lt(a: Seq<char>, b: Seq<char>) -> bool
    decreases a.len(),
{
    if a.len() == 0 {
        b.len() > 0
    } else if b.len() == 0 {
        false
    } else if a[0] != b[0] {
        a[0] < b[0]
    } else {
        chars_lt(a.drop_first(), b.drop_first())
    }
}

/// The order of two components: by rank, then names by their text.
pub open spec fn part_lt(a: PathPart, b: PathPart) -> bool {
    a.0 < b.0 || (a.0 == b.0 && chars_lt(a.1, b.1))
}

/// Lexicographic order on component sequences: the order of paths.
pub open spec fn parts_lt(a: Seq<PathPart>, b: Seq<PathPart>) -> bool
    decreases a.len(),
{
    if a.len() == 0 {
        b.len() > 0
    } else if b.len() == 0 {
        false
    } else if a[0] != b[0] {
        part_lt(a[0], b[0])
    } else {
        parts_lt(a.drop_first(), b.drop_first())
    }
}

/// `a` comes before `b` in the order of paths: the order of their components.
pub closed spec fn path_lt(a: Seq<char>, b: Seq<char>) -> bool {
    parts_lt(path_parts(a), path_parts(b))
}

/// `a` and `b` name the same path: their components are equal.
pub closed spec fn path_eq(a: Seq<char>, b: Seq<char>) -> bool {
    path_parts(a) == path_parts(b)
}

/// What the order and the sameness of paths are.
pub proof fn lemma_path_defs(a: Seq<char>, b: Seq<char>)
    ensures
        path_lt(a, b) == parts_lt(path_parts(a), path_parts(b)),
        path_eq(a, b) == (path_parts(a) == path_parts(b)),
{
}

/// Paths are totally ordered up to sameness: the order is irreflexive,
/// asymmetric and transitive, sameness is an equivalence that the order
/// respects, and of two paths one comes first or both are the same.
pub proof fn lemma_path_order(a: Seq<char>, b: Seq<char>, c: Seq<char>)
    ensures
        !path_lt(a, a),
        path_eq(a, a),
        path_eq(a, b) || path_lt(a, b) || path_lt(b, a),
        path_lt(a, b) ==> !path_lt(b, a) && !path_eq(a, b),
        path_lt(a, b) && path_lt(b, c) ==> path_lt(a, c),
        path_eq(a, b) ==> path_eq(b, a),
        path_eq(a, b) && path_eq(b, c) ==> path_eq(a, c),
        path_eq(a, b) ==> path_lt(a, c) == path_lt(b, c) && path_lt(c, a) == path_lt(c, b),
{
    lemma_parts_lt_order(path_parts(a), path_parts(b), path_parts(c));
    lemma_parts_lt_order(path_parts(a), path_parts(b), path_parts(a));
}

proof fn lemma_chars_lt_order(a: Seq<char>, b: Seq<char>, c: Seq<char>)
    ensures
        !chars_lt(a, a),
        a == b || chars_lt(a, b) || chars_lt(b, a),
        chars_lt(a, b) && chars_lt(b, c) ==> chars_lt(a, c),
    decreases a.len(),
{
    if a.len() > 0 && b.len() > 0 && c.len() > 0 {
        lemma_chars_lt_order(a.drop_first(), b.drop_first(), c.drop_first());
    } else if a.len() > 0 && b.len() > 0 {
        lemma_chars_lt_order(a.drop_first(), b.drop_first(), a.drop_first());
    } else if a.len() > 0 {
        lemma_chars_lt_order(a.drop_first(), a.drop_first(), a.drop_first());
    }
    if a.len() > 0 && b.len() > 0 && a[0] == b[0] && a.drop_first() == b.drop_first() {
        assert(a =~= seq![a[0]] + a.drop_first());
        assert(b =~= seq![b[0]] + b.drop_first());
    }
    if a.len() == 0 && b.len() == 0 {
        assert(a =~= b);
    }
}

proof fn lemma_part_lt_order(a: PathPart, b: PathPart, c: PathPart)
    ensures
        !part_lt(a, a),
        a == b || part_lt(a, b) || part_lt(b, a),
        part_lt(a, b) && part_lt(b, c) ==> part_lt(a, c),
        part_lt(a, b) ==> !part_lt(b, a),
{
    lemma_chars_lt_order(a.1, b.1, c.1);
    lemma_chars_lt_order(b.1, a.1, b.1);
}

proof fn lemma_parts_lt_basic(a: Seq<PathPart>, b: Seq<PathPart>, c: Seq<PathPart>)
    ensures
        !parts_lt(a, a),
        a == b || parts_lt(a, b) || parts_lt(b, a),
        parts_lt(a, b) && parts_lt(b, c) ==> parts_lt(a, c),
    decreases a.len(),
{
    if a.len() > 0 && b.len() > 0 && c.len() > 0 {
        lemma_parts_lt_basic(a.drop_first(), b.drop_first(), c.drop_first());
        lemma_part_lt_order(a[0], b[0], c[0]);
    } else if a.len() > 0 && b.len() > 0 {
        lemma_parts_lt_basic(a.drop_first(), b.drop_first(), a.drop_first());
        lemma_part_lt_order(a[0], b[0], a[0]);
    } else if a.len() > 0 {
        lemma_parts_lt_basic(a.drop_first(), a.drop_first(), a.drop_first());
        lemma_part_lt_order(a[0], a[0], a[0]);
    }
    if a.len() > 0 && b.len() > 0 && a[0] == b[0] && a.drop_first() == b.drop_first() {
        assert(a =~= seq![a[0]] + a.drop_first());
        assert(b =~= seq![b[0]] + b.drop_first());
    }
    if a.len() == 0 && b.len() == 0 {
        assert(a =~= b);
    }
}

/// The order of paths is a strict total order on their components: it is
/// irreflexive, asymmetric and transitive, and any two paths with different
/// components are ordered one way or the other.
pub proof fn lemma_parts_lt_order(a: Seq<PathPart>, b: Seq<PathPart>, c: Seq<PathPart>)
    ensures
        !parts_lt(a, a),
        a == b || parts_lt(a, b) || parts_lt(b, a),
        parts_lt(a, b) && parts_lt(b, c) ==> parts_lt(a, c),
        parts_lt(a, b) ==> !parts_lt(b, a),
{
    lemma_parts_lt_basic(a, b, c);
    lemma_parts_lt_basic(a, b, a);
}

proof fn lemma_first_segment(p: Seq<char>)
    ensures
        path_segments(p).len() >= 1,
        p.len() > 0 && p[0] == '/' ==> path_segments(p)[0].len() == 0 && path_segments(p).len() > 1,
        p.len() > 0 && p[0] != '/' ==> path_segments(p)[0].len() > 0,
        p.len() == 0 ==> path_segments(p) == seq![Seq::<char>::empty()],
    decreases p.len(),
{
    lemma_segments_nonempty(p);
    if p.len() > 0 {
        let q = p.drop_last();
        lemma_first_segment(q);
        if q.len() > 0 {
            assert(q[0] == p[0]);
        }
    }
}

/// The components held in a vector, as `path_parts` gives them.
pub open spec fn parts_view(v: Seq<(u8, Vec<char>)>) -> Seq<PathPart> {
    v.map_values(|p: (u8, Vec<char>)| (p.0 as nat, p.1@))
}

/// The path split at every `/`.
fn segments(path: &str) -> (r: Vec<Vec<char>>)
    ensures
        r@.map_values(|v: Vec<char>| v@) == path_segments(path@),
{
    let cs = chars_of(path);
    let mut done: Vec<Vec<char>> = Vec::new();
    let mut cur: Vec<char> = Vec::new();
    let mut i: usize = 0;
    while i < cs.len()
        invariant
            cs@ == path@,
            0 <= i <= cs@.len(),
            done@.map_values(|v: Vec<char>| v@).push(cur@) == path_segments(cs@.take(i as int)),
        decreases cs@.len() - i,
    {
        let ghost pre = cs@.take(i as int);
        let ghost segs = path_segments(pre);
        let c = cs[i];
        proof {
            assert(cs@.take(i + 1).drop_last() =~= pre);
            assert(cs@.take(i + 1).last() == c);
            lemma_segments_nonempty(pre);
        }
        if c == '/' {
            let finished = cur;
            let ghost before = done@.map_values(|v: Vec<char>| v@);
            done.push(finished);
            cur = Vec::new();
            proof {
                assert(done@.map_values(|v: Vec<char>| v@) =~= before.push(finished@));
                assert(done@.map_values(|v: Vec<char>| v@).push(cur@) =~= segs.push(Seq::empty()));
            }
        } else {
            let ghost before = cur@;
            cur.push(c);
            proof {
                assert(done@.map_values(|v: Vec<char>| v@).push(cur@) =~= segs.update(segs.len() - 1, segs.last().push(c)));
            }
        }
        i = i + 1;
    }
    proof {
        assert(cs@.take(i as int) =~= cs@);
    }
    let ghost before = done@.map_values(|v: Vec<char>| v@);
    done.push(cur);
    proof {
        assert(done@.map_values(|v: Vec<char>| v@) =~= before.push(cur@));
    }
    done
}

/// Whether `v` is the segment `.`.
fn is_dot(v: &Vec<char>) -> (r: bool)
    ensures
        r == (v@ == seq!['.']),
{
    if v.len() == 1 && v[0] == '.' {
        assert(v@ =~= seq!['.']);
        true
    } else {
        false
    }
}

/// Whether `v` is the segment `..`.
fn is_dotdot(v: &Vec<char>) -> (r: bool)
    ensures
        r == (v@ == seq!['.', '.']),
{
    if v.len() == 2 && v[0] == '.' && v[1] == '.' {
        assert(v@ =~= seq!['.', '.']);
        true
    } else {
        false
    }
}

/// The components of a path, as `Path::components` reads them on Unix.
pub fn parts_of(path: &str) -> (r: Vec<(u8, Vec<char>)>)
    ensures
        parts_view(r@) == path_parts(path@),
{
    let segs = segments(path);
    let ghost sv = segs@.map_values(|v: Vec<char>| v@);
    proof {
        lemma_segments_nonempty(path@);
    }
    let mut out: Vec<(u8, Vec<char>)> = Vec::new();
    let mut start: usize = 0;
    let first_is_dot = is_dot(&segs[0]);
    let rooted = segs[0].len() == 0 && segs.len() > 1;
    proof {
        lemma_first_segment(path@);
    }
    if rooted {
        out.push((1, Vec::new()));
        start = 1;
    } else if first_is_dot {
        out.push((2, Vec::new()));
        start = 1;
    }
    let ghost head = parts_view(out@);
    let mut k: usize = start;
    while k < segs.len()
        invariant
            sv == segs@.map_values(|v: Vec<char>| v@),
            start <= k <= segs@.len(),
            start <= 1,
            parts_view(out@) == head + segment_parts(sv.subrange(start as int, k as int)),
        decreases segs@.len() - k,
    {
        let seg = &segs[k];
        let ghost before = parts_view(out@);
        let empty_or_dot = seg.len() == 0 || is_dot(seg);
        let dotdot = is_dotdot(seg);
        proof {
            assert(sv.subrange(start as int, k + 1).drop_last() =~= sv.subrange(start as int, k as int));
            assert(sv.subrange(start as int, k + 1).last() == seg@);
        }
        if empty_or_dot {
        } else if dotdot {
            out.push((3, Vec::new()));
            proof {
                assert(parts_view(out@) =~= before.push((3nat, Seq::<char>::empty())));
            }
        } else {
            let name = seg.clone();
            assert(name@ =~= seg@);
            out.push((4, name));
            proof {
                assert(parts_view(out@) =~= before.push((4nat, seg@)));
            }
        }
        k = k + 1;
    }
    proof {
        if start == 1 {
            assert(sv.subrange(1, sv.len() as int) =~= sv.drop_first());
        } else {
            assert(sv.subrange(0, sv.len() as int) =~= sv);
        }
    }
    out
}

proof fn lemma_chars_lt_skip(a: Seq<char>, b: Seq<char>, i: int)
    requires
        0 <= i <= a.len(),
        i <= b.len(),
        a.take(i) == b.take(i),
    ensures
        chars_lt(a, b) == chars_lt(a.skip(i), b.skip(i)),
    decreases i,
{
    if i > 0 {
        assert(a[0] == a.take(i)[0]);
        assert(b[0] == b.take(i)[0]);
        assert(a.drop_first().take(i - 1) =~= a.take(i).drop_first());
        assert(b.drop_first().take(i - 1) =~= b.take(i).drop_first());
        lemma_chars_lt_skip(a.drop_first(), b.drop_first(), i - 1);
        assert(a.drop_first().skip(i - 1) =~= a.skip(i));
        assert(b.drop_first().skip(i - 1) =~= b.skip(i));
    } else {
        assert(a.skip(0) =~= a);
        assert(b.skip(0) =~= b);
    }
}

proof fn lemma_parts_lt_skip(a: Seq<PathPart>, b: Seq<PathPart>, i: int)
    requires
        0 <= i <= a.len(),
        i <= b.len(),
        a.take(i) == b.take(i),
    ensures
        parts_lt(a, b) == parts_lt(a.skip(i), b.skip(i)),
    decreases i,
{
    if i > 0 {
        assert(a[0] == a.take(i)[0]);
        assert(b[0] == b.take(i)[0]);
        assert(a.drop_first().take(i - 1) =~= a.take(i).drop_first());
        assert(b.drop_first().take(i - 1) =~= b.take(i).drop_first());
        lemma_parts_lt_skip(a.drop_first(), b.drop_first(), i - 1);
        assert(a.drop_first().skip(i - 1) =~= a.skip(i));
        assert(b.drop_first().skip(i - 1) =~= b.skip(i));
    } else {
        assert(a.skip(0) =~= a);
        assert(b.skip(0) =~= b);
    }
}

/// Whether `x` and `y` hold the same characters.
fn chars_equal(x: &Vec<char>, y: &Vec<char>) -> (r: bool)
    ensures
        r == (x@ == y@),
{
    if x.len() != y.len() {
        return false;
    }
    let mut i: usize = 0;
    while i < x.len()
        invariant
            x@.len() == y@.len(),
            0 <= i <= x@.len(),
            forall|k: int| 0 <= k < i ==> x@[k] == y@[k],
        decreases x@.len() - i,
    {
        if x[i] != y[i] {
            return false;
        }
        i = i + 1;
    }
    assert(x@ =~= y@);
    true
}

/// Whether `x` comes before `y`, character by character.
fn chars_less(x: &Vec<char>, y: &Vec<char>) -> (r: bool)
    ensures
        r == chars_lt(x@, y@),
{
    let mut i: usize = 0;
    while i < x.len() && i < y.len() && x[i] == y[i]
        invariant
            0 <= i <= x@.len(),
            i <= y@.len(),
            x@.take(i as int) == y@.take(i as int),
        decreases x@.len() - i,
    {
        assert(x@.take(i + 1) =~= x@.take(i as int).push(x@[i as int]));
        assert(y@.take(i + 1) =~= y@.take(i as int).push(y@[i as int]));
        i = i + 1;
    }
    proof {
        lemma_chars_lt_skip(x@, y@, i as int);
    }
    if i == x.len() {
        i < y.len()
    } else if i == y.len() {
        false
    } else {
        x[i] < y[i]
    }
}

/// Whether two components are equal.
fn part_equal(a: &(u8, Vec<char>), b: &(u8, Vec<char>)) -> (r: bool)
    ensures
        r == ((a.0 as nat, a.1@) == (b.0 as nat, b.1@)),
{
    a.0 == b.0 && chars_equal(&a.1, &b.1)
}

/// Whether the path with components `a` comes before the one with `b`.
pub fn parts_less(a: &Vec<(u8, Vec<char>)>, b: &Vec<(u8, Vec<char>)>) -> (r: bool)
    ensures
        r == parts_lt(parts_view(a@), parts_view(b@)),
{
    let ghost av = parts_view(a@);
    let ghost bv = parts_view(b@);
    let mut i: usize = 0;
    while i < a.len() && i < b.len() && part_equal(&a[i], &b[i])
        invariant
            av == parts_view(a@),
            bv == parts_view(b@),
            0 <= i <= a@.len(),
            i <= b@.len(),
            av.take(i as int) == bv.take(i as int),
        decreases a@.len() - i,
    {
        assert(av.take(i + 1) =~= av.take(i as int).push(av[i as int]));
        assert(bv.take(i + 1) =~= bv.take(i as int).push(bv[i as int]));
        i = i + 1;
    }
    proof {
        lemma_parts_lt_skip(av, bv, i as int);
    }
    if i == a.len() {
        i < b.len()
    } else if i == b.len() {
        false
    } else {
        let x = &a[i];
        let y = &b[i];
        x.0 < y.0 || (x.0 == y.0 && chars_less(&x.1, &y.1))
    }
}

/// Whether two paths have the same components.
pub fn parts_equal(a: &Vec<(u8, Vec<char>)>, b: &Vec<(u8, Vec<char>)>) -> (r: bool)
    ensures
        r == (parts_view(a@) == parts_view(b@)),
{
    if a.len() != b.len() {
        assert(parts_view(a@).len() != parts_view(b@).len());
        return false;
    }
    let mut i: usize = 0;
    while i < a.len()
        invariant
            a@.len() == b@.len(),
            0 <= i <= a@.len(),
            forall|k: int| 0 <= k < i ==> parts_view(a@)[k] == parts_view(b@)[k],
        decreases a@.len() - i,
    {
        if !part_equal(&a[i], &b[i]) {
            assert(parts_view(a@)[i as int] != parts_view(b@)[i as int]);
            return false;
        }
        i = i + 1;
    }
    assert(parts_view(a@) =~= parts_view(b@));
    true
}

} // verus!

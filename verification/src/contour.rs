use vstd::prelude::*;

verus! {

/// A path command of a glyph outline. Each command consumes a fixed number
/// of the outline's points: one for `MoveTo` and `LineTo`, two for
/// `QuadTo`, three for `CurveTo` and none for `Close`.
#[derive(Clone, Copy, Debug, PartialEq, Eq)]
pub enum Verb {
    MoveTo,
    LineTo,
    CurveTo,
    QuadTo,
    Close,
}

/// How many points a verb consumes.
pub open spec fn verb_points(v: Verb) -> nat {
    match v {
        Verb::MoveTo => 1,
        Verb::LineTo => 1,
        Verb::QuadTo => 2,
        Verb::CurveTo => 3,
        Verb::Close => 0,
    }
}

/// How many points a path with `verbs` holds.
pub open spec fn point_count(verbs: Seq<Verb>) -> nat
    decreases verbs.len(),
{
    if verbs.len() == 0 {
        0
    } else {
        point_count(verbs.drop_last()) + verb_points(verbs.last())
    }
}

/// The contours closed so far while reading `verbs` from the front, and
/// the first point of the contour still open. A `MoveTo` or a `Close`
/// closes the open contour (kept only when it holds a point) and opens the
/// next one at the current point.
pub open spec fn scan(verbs: Seq<Verb>) -> (nat, Seq<(nat, nat)>)
    decreases verbs.len(),
{
    if verbs.len() == 0 {
        (0, seq![])
    } else {
        let (start, closed) = scan(verbs.drop_last());
        let end = point_count(verbs.drop_last());
        match verbs.last() {
            Verb::MoveTo | Verb::Close => (
                end,
                if end > start {
                    closed.push((start, end))
                } else {
                    closed
                },
            ),
            _ => (start, closed),
        }
    }
}

/// The half-open point ranges `(start, end)` of the contours of a path with
/// `verbs`: those that `scan` closes, then the one left open at the end,
/// if it holds a point.
pub open spec fn contours_spec(verbs: Seq<Verb>) -> Seq<(nat, nat)> {
    let (start, closed) = scan(verbs);
    let end = point_count(verbs);
    if end > start {
        closed.push((start, end))
    } else {
        closed
    }
}

/// `ranges` split the points `0..total` into non-empty runs, in order and
/// with no gap: the first starts at 0, each starts where the one before it
/// ends, and the last ends at `total`. With no point there is no run.
pub open spec fn partitions(ranges: Seq<(nat, nat)>, total: nat) -> bool {
    &&& forall|t: int| 0 <= t < ranges.len() ==> #[trigger] ranges[t].0 < ranges[t].1
    &&& forall|t: int|
        0 <= t < ranges.len() - 1 ==> #[trigger] ranges[t].1 == ranges[t + 1].0
    &&& ranges.len() == 0 <==> total == 0
    &&& ranges.len() > 0 ==> ranges[0].0 == 0 && ranges.last().1 == total
}

/// The view of a point range as a pair of naturals.
pub open spec fn range_pair(r: std::ops::Range<usize>) -> (nat, nat) {
    (r.start as nat, r.end as nat)
}

proof fn lemma_point_count_prefix(verbs: Seq<Verb>, i: int)
    requires
        0 <= i <= verbs.len(),
    ensures
        point_count(verbs.subrange(0, i)) <= point_count(verbs),
    decreases verbs.len() - i,
{
    if i < verbs.len() {
        lemma_point_count_prefix(verbs, i + 1);
        assert(verbs.subrange(0, i + 1).drop_last() =~= verbs.subrange(0, i));
    } else {
        assert(verbs.subrange(0, i) =~= verbs);
    }
}

/// A path holds at most three points per verb, so a path of at most
/// `usize::MAX / 3` verbs meets the point limit of `contours`.
pub proof fn lemma_point_count_bound(verbs: Seq<Verb>)
    ensures
        point_count(verbs) <= 3 * verbs.len(),
    decreases verbs.len(),
{
    if verbs.len() > 0 {
        lemma_point_count_bound(verbs.drop_last());
    }
}

/// While reading verbs, the closed contours split the points before the
/// open contour's start, and that start is not past the points read.
proof fn lemma_scan_partitions(verbs: Seq<Verb>)
    ensures
        scan(verbs).0 <= point_count(verbs),
        partitions(scan(verbs).1, scan(verbs).0),
    decreases verbs.len(),
{
    if verbs.len() > 0 {
        lemma_scan_partitions(verbs.drop_last());
    }
}

/// The contours of any path split its points into non-empty runs, in
/// order, with no point left out and none in two contours.
pub proof fn lemma_contours_partition_points(verbs: Seq<Verb>)
    ensures
        partitions(contours_spec(verbs), point_count(verbs)),
{
    lemma_scan_partitions(verbs);
}

/// Whether a verb ends the contour before it.
pub open spec fn ends_contour(v: Verb) -> bool {
    v is MoveTo || v is Close
}

/// `x` is where a contour may begin: the first point, or the point count
/// before some `MoveTo` or `Close`.
pub open spec fn is_cut(verbs: Seq<Verb>, x: int) -> bool {
    x == 0 || exists|t: int|
        0 <= t < verbs.len() && ends_contour(verbs[t]) && #[trigger] point_count(verbs.take(t))
            == x
}

/// Some range of `ranges` starts at `x`.
pub open spec fn starts_at(ranges: Seq<(nat, nat)>, x: int) -> bool {
    exists|t: int| 0 <= t < ranges.len() && #[trigger] ranges[t].0 == x
}

/// `ranges` moved along by `by` points.
pub open spec fn shifted(ranges: Seq<(nat, nat)>, by: nat) -> Seq<(nat, nat)> {
    ranges.map_values(|r: (nat, nat)| (r.0 + by, r.1 + by))
}

proof fn lemma_scan_cuts(verbs: Seq<Verb>)
    ensures
        forall|x: int|
            #![trigger is_cut(verbs, x)]
            #![trigger starts_at(scan(verbs).1, x)]
            (starts_at(scan(verbs).1, x) || x == scan(verbs).0) <==> is_cut(verbs, x),
    decreases verbs.len(),
{
    if verbs.len() > 0 {
        let p = verbs.drop_last();
        lemma_scan_cuts(p);
        lemma_scan_partitions(p);
        let (sp, cp) = scan(p);
        let pc = point_count(p);
        let n = verbs.len() - 1;
        assert(verbs.take(n) =~= p);
        assert forall|t: int| 0 <= t < n implies #[trigger] verbs.take(t) =~= p.take(t) by {}
        assert forall|x: int| is_cut(p, x) implies is_cut(verbs, x) by {
            if x != 0 {
                let t = choose|t: int|
                    0 <= t < p.len() && ends_contour(p[t]) && #[trigger] point_count(p.take(t)) == x;
                assert(verbs.take(t) =~= p.take(t));
                assert(ends_contour(verbs[t]));
            }
        }
        if ends_contour(verbs.last()) {
            assert forall|x: int|
                (starts_at(scan(verbs).1, x) || x == scan(verbs).0) <==> is_cut(verbs, x) by {
                if is_cut(verbs, x) && x != 0 && x != pc {
                    let t = choose|t: int|
                        0 <= t < verbs.len() && ends_contour(verbs[t]) && #[trigger] point_count(
                            verbs.take(t),
                        ) == x;
                    assert(t != n);
                    assert(verbs.take(t) =~= p.take(t));
                    assert(is_cut(p, x));
                }
                if starts_at(scan(verbs).1, x) {
                    let t = choose|t: int|
                        0 <= t < scan(verbs).1.len() && #[trigger] scan(verbs).1[t].0 == x;
                    if t < cp.len() {
                        assert(starts_at(cp, x));
                    }
                }
                if starts_at(cp, x) {
                    let t = choose|t: int| 0 <= t < cp.len() && #[trigger] cp[t].0 == x;
                    assert(scan(verbs).1[t] == cp[t]);
                }
                if x == sp && pc > sp {
                    assert(scan(verbs).1[cp.len() as int].0 == sp);
                }
                if x == pc {
                    assert(point_count(verbs.take(n)) == x);
                }
            }
        } else {
            assert forall|x: int|
                (starts_at(scan(verbs).1, x) || x == scan(verbs).0) <==> is_cut(verbs, x) by {
                if is_cut(verbs, x) && x != 0 {
                    let t = choose|t: int|
                        0 <= t < verbs.len() && ends_contour(verbs[t]) && #[trigger] point_count(
                            verbs.take(t),
                        ) == x;
                    assert(t != n);
                    assert(verbs.take(t) =~= p.take(t));
                    assert(is_cut(p, x));
                }
            }
        }
    }
}

/// Where the contours begin, stated without reading the verbs in order:
/// together with the path's end, the starts of the contours are exactly
/// the first point, the path's end and the point count before each
/// `MoveTo` or `Close`.
pub proof fn lemma_contour_starts(verbs: Seq<Verb>)
    ensures
        forall|x: int|
            #![trigger is_cut(verbs, x)]
            #![trigger starts_at(contours_spec(verbs), x)]
            (starts_at(contours_spec(verbs), x) || x == point_count(verbs)) <==> (is_cut(verbs, x)
                || x == point_count(verbs)),
{
    lemma_scan_cuts(verbs);
    lemma_scan_partitions(verbs);
    let (s, closed) = scan(verbs);
    let total = point_count(verbs);
    assert forall|x: int|
        (starts_at(contours_spec(verbs), x) || x == total) <==> (is_cut(verbs, x) || x == total) by {
        if starts_at(contours_spec(verbs), x) {
            let t = choose|t: int|
                0 <= t < contours_spec(verbs).len() && #[trigger] contours_spec(verbs)[t].0 == x;
            if t < closed.len() {
                assert(starts_at(closed, x));
            }
        }
        if starts_at(closed, x) {
            let t = choose|t: int| 0 <= t < closed.len() && #[trigger] closed[t].0 == x;
            assert(contours_spec(verbs)[t] == closed[t]);
        }
        if x == s && total > s {
            assert(contours_spec(verbs)[closed.len() as int].0 == s);
        }
    }
}

/// Reading a second path after a first that ends by closing its contour
/// carries the second path's reading along by the first's point count.
proof fn lemma_scan_concat(a: Seq<Verb>, b: Seq<Verb>)
    requires
        a.len() == 0 || a.last() == Verb::Close || (b.len() > 0 && b[0] == Verb::MoveTo),
    ensures
        point_count(a + b) == point_count(a) + point_count(b),
        (a.len() == 0 || a.last() == Verb::Close || b.len() > 0) ==> scan(a + b) == (
            scan(b).0 + point_count(a),
            contours_spec(a) + shifted(scan(b).1, point_count(a)),
        ),
    decreases b.len(),
{
    let t = point_count(a);
    if b.len() == 0 {
        assert(a + b =~= a);
        if a.len() > 0 {
            assert(shifted(scan(b).1, t) =~= seq![]);
            assert(contours_spec(a) + shifted(scan(b).1, t) =~= contours_spec(a));
        } else {
            assert(shifted(scan(b).1, t) =~= seq![]);
        }
    } else {
        let b0 = b.drop_last();
        assert((a + b).drop_last() =~= a + b0);
        assert((a + b).last() == b.last());
        if b0.len() == 0 && !(a.len() == 0 || a.last() == Verb::Close) {
            assert(a + b0 =~= a);
            assert(scan(b0).1 =~= seq![]);
            assert(shifted(scan(b).1, t) =~= seq![]);
            assert(contours_spec(a) + shifted(scan(b).1, t) =~= contours_spec(a));
        } else {
            if b0.len() > 0 {
                assert(b0[0] == b[0]);
            }
            lemma_scan_concat(a, b0);
            let (s0, c0) = scan(b0);
            let pc0 = point_count(b0);
            if ends_contour(b.last()) && pc0 > s0 {
                assert(shifted(c0.push((s0, pc0)), t) =~= shifted(c0, t).push(
                    ((s0 + t) as nat, (pc0 + t) as nat),
                ));
                assert(contours_spec(a) + shifted(c0.push((s0, pc0)), t) =~= (contours_spec(a)
                    + shifted(c0, t)).push(((s0 + t) as nat, (pc0 + t) as nat)));
            }
        }
    }
}

/// The contours of two paths read one after the other, where the first
/// ends by closing its contour or the second begins with a `MoveTo`, are
/// the first path's contours followed by the second's, moved along by the
/// first path's point count.
pub proof fn lemma_contours_concat(a: Seq<Verb>, b: Seq<Verb>)
    requires
        a.len() == 0 || b.len() == 0 || a.last() == Verb::Close || b[0] == Verb::MoveTo,
    ensures
        contours_spec(a + b) == contours_spec(a) + shifted(contours_spec(b), point_count(a)),
{
    let t = point_count(a);
    if b.len() == 0 {
        assert(a + b =~= a);
        assert(shifted(contours_spec(b), t) =~= seq![]);
        assert(contours_spec(a) + shifted(contours_spec(b), t) =~= contours_spec(a));
    } else {
        lemma_scan_concat(a, b);
        let (sb, cb) = scan(b);
        let pb = point_count(b);
        if pb > sb {
            assert(shifted(cb.push((sb, pb)), t) =~= shifted(cb, t).push(
                ((sb + t) as nat, (pb + t) as nat),
            ));
            assert(contours_spec(a) + shifted(cb.push((sb, pb)), t) =~= (contours_spec(a)
                + shifted(cb, t)).push(((sb + t) as nat, (pb + t) as nat)));
        }
    }
}

/// The range of points each contour of a path with `verbs` holds: a
/// `MoveTo` or a `Close` ends the contour before it (when that contour
/// holds a point) and the path's end ends the last one.
pub fn contours(verbs: &[Verb]) -> (result: Vec<std::ops::Range<usize>>)
    requires
        point_count(verbs@) <= usize::MAX,
    ensures
        result@.map_values(|r: std::ops::Range<usize>| range_pair(r)) == contours_spec(verbs@),
        partitions(contours_spec(verbs@), point_count(verbs@)),
        partitions(
            result@.map_values(|r: std::ops::Range<usize>| range_pair(r)),
            point_count(verbs@),
        ),
        forall|x: int|
            #![trigger is_cut(verbs@, x)]
            (starts_at(result@.map_values(|r: std::ops::Range<usize>| range_pair(r)), x) || x
                == point_count(verbs@)) <==> (is_cut(verbs@, x) || x == point_count(verbs@)),
{
    let mut contours: Vec<std::ops::Range<usize>> = Vec::new();
    let mut start: usize = 0;
    let mut end: usize = 0;
    let mut n: usize = 0;
    while n < verbs.len()
        invariant
            0 <= n <= verbs.len(),
            point_count(verbs@) <= usize::MAX,
            start as nat == scan(verbs@.subrange(0, n as int)).0,
            end as nat == point_count(verbs@.subrange(0, n as int)),
            contours@.map_values(|r: std::ops::Range<usize>| range_pair(r)) == scan(
                verbs@.subrange(0, n as int),
            ).1,
        decreases verbs.len() - n,
    {
        let ghost prefix = verbs@.subrange(0, n as int);
        let ghost next = verbs@.subrange(0, n + 1);
        assert(next.drop_last() =~= prefix);
        assert(next.last() == verbs@[n as int]);
        proof {
            lemma_point_count_prefix(verbs@, n + 1);
        }
        let verb = verbs[n];
        match verb {
            Verb::MoveTo | Verb::Close => {
                if end > start {
                    let ghost before = contours@;
                    contours.push(std::ops::Range { start: start, end: end });
                    assert(contours@.map_values(|r: std::ops::Range<usize>| range_pair(r))
                        =~= before.map_values(|r: std::ops::Range<usize>| range_pair(r)).push(
                        (start as nat, end as nat),
                    ));
                }
                start = end;
                if let Verb::MoveTo = verb {
                    end = end + 1;
                }
            },
            Verb::LineTo => {
                end = end + 1;
            },
            Verb::QuadTo => {
                end = end + 2;
            },
            Verb::CurveTo => {
                end = end + 3;
            },
        }
        n = n + 1;
    }
    assert(verbs@.subrange(0, verbs.len() as int) =~= verbs@);
    if end > start {
        let ghost before = contours@;
        contours.push(std::ops::Range { start: start, end: end });
        assert(contours@.map_values(|r: std::ops::Range<usize>| range_pair(r)) =~= before.map_values(
            |r: std::ops::Range<usize>| range_pair(r),
        ).push((start as nat, end as nat)));
    }
    proof {
        lemma_contours_partition_points(verbs@);
        lemma_contour_starts(verbs@);
    }
    contours
}

} // verus!

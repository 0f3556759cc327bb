use vstd::prelude::*;

use crate::contour::range_pair;

verus! {

/// The edges of one contour `(start, end)`, as pairs of point indices, in
/// the order the winding sums them: from the last point back to the first,
/// which closes the contour on its own first point, then from each point
/// to the next.
pub open spec fn closing_edges(c: (nat, nat)) -> Seq<(nat, nat)> {
    Seq::new(
        (c.1 - c.0) as nat,
        |t: int|
            if t == 0 {
                ((c.1 - 1) as nat, c.0)
            } else {
                ((c.0 + t - 1) as nat, (c.0 + t) as nat)
            },
    )
}

/// The edges of all the contours, contour by contour.
pub open spec fn edges_spec(contours: Seq<(nat, nat)>) -> Seq<(nat, nat)>
    decreases contours.len(),
{
    if contours.len() == 0 {
        seq![]
    } else {
        edges_spec(contours.drop_last()) + closing_edges(contours.last())
    }
}

/// Both ends of `e` are points of the contour `c`.
pub open spec fn within(e: (nat, nat), c: (nat, nat)) -> bool {
    &&& c.0 <= e.0 < c.1
    &&& c.0 <= e.1 < c.1
}

/// Both ends of `e` are points of one of the `contours`.
pub open spec fn in_some_contour(e: (nat, nat), contours: Seq<(nat, nat)>) -> bool {
    exists|c: int| 0 <= c < contours.len() && #[trigger] within(e, contours[c])
}

/// Every edge lies inside one of the contours: none bridges two of them.
pub open spec fn edges_stay_in_contours(
    edges: Seq<(nat, nat)>,
    contours: Seq<(nat, nat)>,
) -> bool {
    forall|t: int| 0 <= t < edges.len() ==> in_some_contour(#[trigger] edges[t], contours)
}

/// How many points the contours hold, all together.
pub open spec fn total_points(contours: Seq<(nat, nat)>) -> int
    decreases contours.len(),
{
    if contours.len() == 0 {
        0
    } else {
        total_points(contours.drop_last()) + contours.last().1 - contours.last().0
    }
}

/// The point after `p` going forward around the contour `c`: the one after
/// the last is the first.
pub open spec fn next_in(c: (nat, nat), p: int) -> int {
    if p + 1 < c.1 {
        p + 1
    } else {
        c.0 as int
    }
}

/// The point before `p` going forward around the contour `c`: the one
/// before the first is the last.
pub open spec fn prev_in(c: (nat, nat), p: int) -> int {
    if p > c.0 {
        p - 1
    } else {
        c.1 - 1
    }
}

/// `e` runs forward along the contour `c`, from one of its points to the
/// point after it.
pub open spec fn runs_forward(e: (nat, nat), c: (nat, nat)) -> bool {
    &&& c.0 <= e.0 < c.1
    &&& e.1 == next_in(c, e.0 as int)
}

/// The edges go contour by contour, in the order of the contours, one edge
/// ending at each point of each contour: the edge into point `p` of a
/// contour comes from the point before `p` in that contour, and stands at
/// the contour's first edge plus how far `p` is from the contour's first
/// point. So a contour's first edge closes it, from its last point back to
/// its first, and there are exactly as many edges as points.
pub open spec fn one_forward_cycle_per_contour(
    edges: Seq<(nat, nat)>,
    contours: Seq<(nat, nat)>,
) -> bool {
    &&& edges.len() == total_points(contours)
    &&& forall|c: int, p: int|
        0 <= c < contours.len() && contours[c].0 <= p < contours[c].1 ==> #[trigger] edges[total_points(
            contours.take(c),
        ) + p - contours[c].0] == (prev_in(contours[c], p) as nat, p as nat)
    &&& forall|t: int| 0 <= t < edges.len() ==> runs_forward_in_some(#[trigger] edges[t], contours)
}

/// `e` runs forward along one of the `contours`.
pub open spec fn runs_forward_in_some(e: (nat, nat), contours: Seq<(nat, nat)>) -> bool {
    exists|c: int| 0 <= c < contours.len() && #[trigger] runs_forward(e, contours[c])
}

proof fn lemma_total_points_prefix(contours: Seq<(nat, nat)>, c: int)
    requires
        forall|d: int| 0 <= d < contours.len() ==> #[trigger] contours[d].0 < contours[d].1,
        0 <= c < contours.len(),
    ensures
        total_points(contours.take(c + 1)) == total_points(contours.take(c)) + contours[c].1
            - contours[c].0,
        0 <= total_points(contours.take(c)),
        total_points(contours.take(c + 1)) <= total_points(contours),
{
    assert(contours.take(c + 1).drop_last() =~= contours.take(c));
    lemma_total_points_rises(contours, c);
    lemma_total_points_below(contours, c + 1);
}

proof fn lemma_total_points_rises(contours: Seq<(nat, nat)>, c: int)
    requires
        forall|d: int| 0 <= d < contours.len() ==> #[trigger] contours[d].0 < contours[d].1,
        0 <= c <= contours.len(),
    ensures
        0 <= total_points(contours.take(c)),
    decreases c,
{
    if c == 0 {
        assert(contours.take(0) =~= Seq::<(nat, nat)>::empty());
    } else {
        lemma_total_points_rises(contours, c - 1);
        assert(contours.take(c).drop_last() =~= contours.take(c - 1));
    }
}

proof fn lemma_total_points_below(contours: Seq<(nat, nat)>, c: int)
    requires
        forall|d: int| 0 <= d < contours.len() ==> #[trigger] contours[d].0 < contours[d].1,
        0 <= c <= contours.len(),
    ensures
        total_points(contours.take(c)) <= total_points(contours),
    decreases contours.len() - c,
{
    if c == contours.len() {
        assert(contours.take(c) =~= contours);
    } else {
        lemma_total_points_below(contours, c + 1);
        assert(contours.take(c + 1).drop_last() =~= contours.take(c));
    }
}

/// The edges the winding sums close each contour on its own first point
/// and then run forward from each point to the next: one forward cycle
/// through every point of every contour, contour after contour, so the
/// area they sum is each contour's own signed area.
pub proof fn lemma_edges_form_forward_cycles(contours: Seq<(nat, nat)>)
    requires
        forall|c: int| 0 <= c < contours.len() ==> #[trigger] contours[c].0 < contours[c].1,
    ensures
        one_forward_cycle_per_contour(edges_spec(contours), contours),
    decreases contours.len(),
{
    if contours.len() > 0 {
        let rest = contours.drop_last();
        lemma_edges_form_forward_cycles(rest);
        let before = edges_spec(rest);
        let last = contours.last();
        let closing = closing_edges(last);
        let all = edges_spec(contours);
        let n = contours.len() - 1;
        assert(contours.take(n) =~= rest);
        assert forall|c: int, p: int|
            0 <= c < contours.len() && contours[c].0 <= p < contours[c].1 implies #[trigger] all[total_points(
            contours.take(c),
        ) + p - contours[c].0] == (prev_in(contours[c], p) as nat, p as nat) by {
            if c < n {
                assert(contours.take(c) =~= rest.take(c));
                assert(rest[c] == contours[c]);
                lemma_total_points_prefix(rest, c);
                let idx = total_points(rest.take(c)) + p - rest[c].0;
                assert(before[idx] == (prev_in(rest[c], p) as nat, p as nat));
                assert(all[idx] == before[idx]);
            } else {
                let idx = total_points(rest) + p - last.0;
                assert(all[idx] == closing[p - last.0]);
            }
        }
        assert forall|t: int| 0 <= t < all.len() implies runs_forward_in_some(
            #[trigger] all[t],
            contours,
        ) by {
            if t < before.len() {
                assert(all[t] == before[t]);
                assert(runs_forward_in_some(before[t], rest));
                let c = choose|c: int| 0 <= c < rest.len() && #[trigger] runs_forward(before[t], rest[c]);
                assert(rest[c] == contours[c]);
                assert(runs_forward(all[t], contours[c]));
            } else {
                assert(all[t] == closing[t - before.len()]);
                assert(runs_forward(all[t], contours[n]));
            }
        }
    }
}

/// The view of an edge as a pair of naturals.
pub open spec fn edge_pair(e: (usize, usize)) -> (nat, nat) {
    (e.0 as nat, e.1 as nat)
}

/// No edge that the winding sums joins two contours: each one has both
/// ends in the contour it closes or runs along.
pub proof fn lemma_edges_stay_in_contours(contours: Seq<(nat, nat)>)
    requires
        forall|c: int| 0 <= c < contours.len() ==> #[trigger] contours[c].0 < contours[c].1,
    ensures
        edges_stay_in_contours(edges_spec(contours), contours),
    decreases contours.len(),
{
    if contours.len() > 0 {
        let rest = contours.drop_last();
        lemma_edges_stay_in_contours(rest);
        let before = edges_spec(rest);
        let last = closing_edges(contours.last());
        assert forall|t: int| 0 <= t < edges_spec(contours).len() implies in_some_contour(
            #[trigger] edges_spec(contours)[t],
            contours,
        ) by {
            if t < before.len() {
                assert(edges_spec(contours)[t] == before[t]);
                assert(in_some_contour(before[t], rest));
                let c = choose|c: int| 0 <= c < rest.len() && #[trigger] within(before[t], rest[c]);
                assert(rest[c] == contours[c]);
                assert(within(edges_spec(contours)[t], contours[c]));
            } else {
                let c = contours.len() - 1;
                assert(edges_spec(contours)[t] == last[t - before.len()]);
                assert(within(edges_spec(contours)[t], contours[c]));
            }
        }
    }
}

/// The edges over which the winding of an outline with `contours` sums its
/// signed area: each contour taken on its own and closed on its own first
/// point, so that no edge runs from one contour to the next.
pub fn contour_edges(contours: &[std::ops::Range<usize>]) -> (edges: Vec<(usize, usize)>)
    requires
        forall|c: int| 0 <= c < contours@.len() ==> #[trigger] contours@[c].start < contours@[c].end,
    ensures
        edges@.map_values(|e: (usize, usize)| edge_pair(e)) == edges_spec(
            contours@.map_values(|r: std::ops::Range<usize>| range_pair(r)),
        ),
        edges_stay_in_contours(
            edges_spec(contours@.map_values(|r: std::ops::Range<usize>| range_pair(r))),
            contours@.map_values(|r: std::ops::Range<usize>| range_pair(r)),
        ),
        one_forward_cycle_per_contour(
            edges@.map_values(|e: (usize, usize)| edge_pair(e)),
            contours@.map_values(|r: std::ops::Range<usize>| range_pair(r)),
        ),
{
    let ghost cs = contours@.map_values(|r: std::ops::Range<usize>| range_pair(r));
    let mut edges: Vec<(usize, usize)> = Vec::new();
    let mut n: usize = 0;
    while n < contours.len()
        invariant
            0 <= n <= contours@.len(),
            cs == contours@.map_values(|r: std::ops::Range<usize>| range_pair(r)),
            forall|c: int| 0 <= c < contours@.len() ==> #[trigger] contours@[c].start < contours@[c].end,
            edges@.map_values(|e: (usize, usize)| edge_pair(e)) == edges_spec(
                cs.subrange(0, n as int),
            ),
        decreases contours.len() - n,
    {
        let start = contours[n].start;
        let end = contours[n].end;
        let ghost before = edges@.map_values(|e: (usize, usize)| edge_pair(e));
        let ghost closing = closing_edges((start as nat, end as nat));
        edges.push((end - 1, start));
        assert(edges@.map_values(|e: (usize, usize)| edge_pair(e)) =~= before.push(
            ((end - 1) as nat, start as nat),
        ));
        assert(closing.subrange(0, 1) =~= seq![((end - 1) as nat, start as nat)]);
        let mut p: usize = start + 1;
        while p < end
            invariant
                start < end,
                start + 1 <= p <= end,
                closing == closing_edges((start as nat, end as nat)),
                edges@.map_values(|e: (usize, usize)| edge_pair(e)) == before + closing.subrange(
                    0,
                    p - start,
                ),
            decreases end - p,
        {
            let ghost mid = edges@;
            edges.push((p - 1, p));
            assert(edges@.map_values(|e: (usize, usize)| edge_pair(e)) =~= mid.map_values(
                |e: (usize, usize)| edge_pair(e),
            ).push(((p - 1) as nat, p as nat)));
            assert(closing[p - start] == ((p - 1) as nat, p as nat));
            assert(closing.subrange(0, p + 1 - start) =~= closing.subrange(0, p - start).push(
                closing[p - start],
            ));
            p = p + 1;
        }
        assert(closing.subrange(0, end - start) =~= closing);
        assert(cs.subrange(0, n + 1).drop_last() =~= cs.subrange(0, n as int));
        assert(cs.subrange(0, n + 1).last() == cs[n as int]);
        n = n + 1;
    }
    assert(cs.subrange(0, contours.len() as int) =~= cs);
    proof {
        lemma_edges_stay_in_contours(cs);
        lemma_edges_form_forward_cycles(cs);
    }
    edges
}

} // verus!

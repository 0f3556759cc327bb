use vstd::prelude::*;

verus! {

/// The point after `x` on a closed contour of `len` points.
pub open spec fn succ(x: int, len: int) -> int {
    if x + 1 < len {
        x + 1
    } else {
        0
    }
}

/// `x` brought back into `0..len`, for an `x` below `2 * len`.
pub open spec fn wrap(x: int, len: int) -> int {
    if x < len {
        x
    } else {
        x - len
    }
}

/// How many steps forward lead from `from` to `to` around a contour of
/// `len` points; a full turn when they are the same point.
pub open spec fn gap(from: int, to: int, len: int) -> int {
    if from < to {
        to - from
    } else {
        to - from + len
    }
}

/// The `count` points that follow one another around a contour of `len`
/// points, starting at `from`.
pub open spec fn arc(from: int, count: int, len: int) -> Seq<int> {
    Seq::new(count as nat, |t: int| wrap(from + t, len))
}

/// What the walk needs to know before its next step.
#[derive(Debug, PartialEq, Eq)]
pub enum Probe {
    /// Whether the edge from point `from` to point `to` has zero length.
    Edge { from: usize, to: usize },
    /// Nothing: the next edge is the anchor edge remembered at the first
    /// corner, whose length is known not to be zero.
    Anchor,
    /// Nothing: every corner has been visited.
    Done,
}

/// What a step of the walk asks of the caller, who keeps the edge
/// directions and lengths. After `Enter` or `Turn`, the edge just probed
/// becomes the incoming edge of the next corner.
#[derive(Debug, PartialEq, Eq)]
pub enum Step {
    /// The edge just probed has zero length: it is passed over.
    Skip,
    /// The edge just probed is the first one of non-zero length.
    Enter,
    /// A corner between the incoming edge and the edge just probed: move
    /// the points from `from` forward up to, not including, `to` (see
    /// `ContourWalk::after`) by the shift of that corner. When `anchor`
    /// holds, this is the first corner, and its incoming edge is to be
    /// remembered as the anchor edge.
    Turn { anchor: bool, from: usize, to: usize },
}

/// The walk around the corners of one closed contour of `len` points that
/// a faux bold makes to push each point outward. It keeps the current point
/// `i`, the point `j` at the end of the edge being looked at, and, once the
/// first corner is found, that corner `k`; it stops when `j` comes back to
/// `i`, or `i` back to `k`. Edges of zero length are passed over, and the
/// points between two corners are moved with the first of them.
pub struct ContourWalk {
    len: usize,
    i: usize,
    j: usize,
    k: Option<usize>,
    entered: bool,
    moved: Ghost<Seq<int>>,
    answers: Ghost<Seq<(int, int, bool)>>,
}

/// The edge from `a` to `b` was answered to have zero length.
pub open spec fn said_zero(answers: Seq<(int, int, bool)>, a: int, b: int) -> bool {
    answers.contains((a, b, true))
}

/// The edge from `a` to `b` was answered to have a length.
pub open spec fn said_nonzero(answers: Seq<(int, int, bool)>, a: int, b: int) -> bool {
    answers.contains((a, b, false))
}

/// Some edge was answered to have a length and its reverse to have none.
pub open spec fn asymmetric(answers: Seq<(int, int, bool)>) -> bool {
    exists|a: int, b: int| #[trigger] said_nonzero(answers, a, b) && said_zero(answers, b, a)
}

/// Every point before the last was answered to coincide with the last.
pub open spec fn all_coincide_with_last(answers: Seq<(int, int, bool)>, len: int) -> bool {
    forall|x: int| 0 <= x < len - 1 ==> #[trigger] said_zero(answers, len - 1, x)
}

/// `x` lies strictly inside the stretch from `from` forward to `to`.
pub open spec fn between(from: int, x: int, to: int, len: int) -> bool {
    x != from && gap(from, x, len) < gap(from, to, len)
}

proof fn lemma_push_keeps(s: Seq<(int, int, bool)>, e: (int, int, bool))
    ensures
        forall|z: (int, int, bool)| s.contains(z) ==> #[trigger] s.push(e).contains(z),
        s.push(e).contains(e),
{
    assert forall|z: (int, int, bool)| s.contains(z) implies #[trigger] s.push(e).contains(z) by {
        let t = choose|t: int| 0 <= t < s.len() && s[t] == z;
        assert(s.push(e)[t] == z);
    }
    assert(s.push(e)[s.len() as int] == e);
}

impl ContourWalk {
    /// How many points the contour holds.
    pub closed spec fn len(&self) -> nat {
        self.len as nat
    }

    /// The current point: where the incoming edge ends.
    pub closed spec fn from(&self) -> usize {
        self.i
    }

    /// The point at the end of the edge being looked at.
    pub closed spec fn to(&self) -> usize {
        self.j
    }

    /// The first corner, once it is found.
    pub closed spec fn anchor(&self) -> Option<usize> {
        self.k
    }

    /// Whether an edge of non-zero length has been found.
    pub closed spec fn entered(&self) -> bool {
        self.entered
    }

    /// Every point moved so far, in the order they were moved.
    pub closed spec fn moved(&self) -> Seq<int> {
        self.moved@
    }

    /// Every edge probe answered so far: its two points and whether it had
    /// zero length.
    pub closed spec fn answers(&self) -> Seq<(int, int, bool)> {
        self.answers@
    }

    /// Where `x` stands, counted forward from the first corner; the first
    /// corner itself counts as a full turn.
    closed spec fn pos(&self, x: int) -> int {
        let k = self.k.unwrap() as int;
        if x > k {
            x - k
        } else {
            x - k + self.len
        }
    }

    /// The walk's own bookkeeping holds together.
    pub closed spec fn wf(&self) -> bool {
        let n = self.len as int;
        let i = self.i as int;
        let j = self.j as int;
        let c = self.moved@.len() as int;
        &&& n == 0 ==> i == 0 && j == 0 && !self.entered
        &&& n > 0 ==> i < n && j < n
        &&& !self.entered ==> {
            &&& n > 0 ==> i == n - 1
            &&& self.k is None
            &&& forall|x: int| 0 <= x < j ==> #[trigger] said_zero(self.answers@, n - 1, x)
        }
        &&& self.entered && self.k is None ==> {
            &&& i != n - 1
            &&& said_nonzero(self.answers@, n - 1, i)
            &&& forall|x: int|
                0 <= x < n && #[trigger] between(i, x, j, n) ==> said_zero(self.answers@, i, x)
        }
        &&& self.k is None ==> c == 0
        &&& self.k matches Some(k) ==> {
            &&& self.entered
            &&& k < n
            &&& 1 <= c <= n
            &&& self.moved@ =~= arc(k as int, c, n)
            &&& i == wrap(k + c, n)
            &&& c < n ==> c < self.pos(j) <= n
        }
    }

    /// Whether the walk has visited every corner.
    pub open spec fn is_done(&self) -> bool {
        self.to() == self.from() || self.anchor() == Some(self.from())
    }

    /// What is left of the walk: at most this many steps remain. Each step
    /// takes some of it, and a new walk around `len` points starts with
    /// `2 * len - 1`.
    pub closed spec fn remaining(&self) -> nat {
        let n = self.len as int;
        let i = self.i as int;
        let j = self.j as int;
        let c = self.moved@.len() as int;
        if n == 0 {
            0
        } else if !self.entered {
            (2 * n - 1 - j) as nat
        } else if self.k is None {
            ((if j <= i {
                i - j
            } else {
                i - j + n
            }) + 1) as nat
        } else if c >= n {
            0
        } else {
            (n - self.pos(j) + 1) as nat
        }
    }

    /// A walk around a contour of `len` points, starting on the edge from
    /// the last point to the first.
    pub fn new(len: usize) -> (w: Self)
        ensures
            w.wf(),
            w.len() == len,
            w.from() == (if len > 0 {
                len - 1
            } else {
                0
            }),
            w.to() == 0,
            w.anchor() is None,
            !w.entered(),
            w.moved().len() == 0,
            w.answers().len() == 0,
            w.remaining() == (if len > 0 {
                2 * len - 1
            } else {
                0
            }),
    {
        ContourWalk {
            len,
            i: if len > 0 {
                len - 1
            } else {
                0
            },
            j: 0,
            k: None,
            entered: false,
            moved: Ghost(Seq::empty()),
            answers: Ghost(Seq::empty()),
        }
    }

    /// What the next step needs to know. Once the walk is done, either no
    /// point has been moved, or every point has been moved once, going
    /// around the contour from the first corner.
    pub fn probe(&self) -> (p: Probe)
        requires
            self.wf(),
        ensures
            self.is_done() ==> p == Probe::Done,
            !self.is_done() && self.anchor() == Some(self.to()) ==> p == Probe::Anchor,
            !self.is_done() && self.anchor() != Some(self.to()) ==> p == (Probe::Edge {
                from: self.from(),
                to: self.to(),
            }),
            p matches Probe::Edge { from, to } ==> from < self.len() && to < self.len(),
            p == Probe::Done ==> self.moved().len() == 0 || (self.anchor() matches Some(k)
                && self.moved() =~= arc(k as int, self.len() as int, self.len() as int)),
            p == Probe::Done && self.moved().len() == 0 ==> all_coincide_with_last(
                self.answers(),
                self.len() as int,
            ) || asymmetric(self.answers()),
    {
        proof {
            self.lemma_done_moves_each_point_once();
        }
        if self.j == self.i {
            return Probe::Done;
        }
        match self.k {
            Some(k) => {
                if k == self.i {
                    Probe::Done
                } else if k == self.j {
                    Probe::Anchor
                } else {
                    Probe::Edge { from: self.i, to: self.j }
                }
            },
            None => Probe::Edge { from: self.i, to: self.j },
        }
    }

    /// A walk that is done has moved no point, or every point once, in
    /// order around the contour from its first corner. It moved none only
    /// where every point was found to coincide with the last one, or where
    /// some edge was found to have a length that its reverse had not.
    pub proof fn lemma_done_moves_each_point_once(&self)
        requires
            self.wf(),
        ensures
            self.is_done() ==> self.moved().len() == 0 || (self.anchor() matches Some(k)
                && self.moved() =~= arc(k as int, self.len() as int, self.len() as int)),
            self.is_done() && self.moved().len() == 0 ==> all_coincide_with_last(
                self.answers(),
                self.len() as int,
            ) || asymmetric(self.answers()),
    {
        if self.is_done() && self.k is None && self.entered {
            let n = self.len as int;
            let i = self.i as int;
            assert(between(i, n - 1, self.j as int, n));
            assert(said_zero(self.answers@, i, n - 1));
            assert(said_nonzero(self.answers@, n - 1, i));
        }
        if self.is_done() {
            if let Some(k) = self.k {
                let c = self.moved@.len() as int;
                if c < self.len {
                    let pj = self.pos(self.j as int);
                    assert(self.j as int == wrap(k + pj, self.len as int));
                }
            }
        }
    }

    /// The point after `p` going forward around the contour.
    pub fn after(&self, p: usize) -> (q: usize)
        requires
            p < self.len(),
        ensures
            q as int == succ(p as int, self.len() as int),
            q < self.len(),
    {
        if p + 1 < self.len {
            p + 1
        } else {
            0
        }
    }

    /// One step of the walk, told whether the edge that `probe` named has
    /// zero length (a step on the anchor edge does not look at `zero`).
    pub fn step(&mut self, zero: bool) -> (s: Step)
        requires
            old(self).wf(),
            !old(self).is_done(),
        ensures
            final(self).wf(),
            final(self).len() == old(self).len(),
            final(self).remaining() < old(self).remaining(),
            final(self).from() < final(self).len(),
            final(self).to() < final(self).len(),
            final(self).answers() == (if old(self).anchor() == Some(old(self).to()) {
                old(self).answers()
            } else {
                old(self).answers().push((old(self).from() as int, old(self).to() as int, zero))
            }),
            old(self).anchor() != Some(old(self).to()) && zero ==> {
                &&& s == Step::Skip
                &&& final(self).from() == old(self).from()
                &&& final(self).to() as int == succ(old(self).to() as int, old(self).len() as int)
                &&& final(self).anchor() == old(self).anchor()
                &&& final(self).entered() == old(self).entered()
                &&& final(self).moved() == old(self).moved()
            },
            (old(self).anchor() == Some(old(self).to()) || !zero) && !old(self).entered() ==> {
                &&& s == Step::Enter
                &&& final(self).from() == old(self).to()
                &&& final(self).to() as int == succ(old(self).to() as int, old(self).len() as int)
                &&& final(self).anchor() == old(self).anchor()
                &&& final(self).entered()
                &&& final(self).moved() == old(self).moved()
            },
            (old(self).anchor() == Some(old(self).to()) || !zero) && old(self).entered() ==> {
                let turned = arc(
                    old(self).from() as int,
                    gap(old(self).from() as int, old(self).to() as int, old(self).len() as int),
                    old(self).len() as int,
                );
                &&& s matches Step::Turn { anchor, from, to } && anchor == (old(self).anchor() is None)
                    && from == old(self).from() && to == old(self).to() && from != to
                    && from < old(self).len() && to < old(self).len()
                &&& final(self).from() == old(self).to()
                &&& final(self).to() as int == succ(old(self).to() as int, old(self).len() as int)
                &&& final(self).anchor() == (if old(self).anchor() is None {
                    Some(old(self).from())
                } else {
                    old(self).anchor()
                })
                &&& final(self).entered()
                &&& final(self).moved() == old(self).moved() + turned
            },
    {
        let n = self.len;
        let j = self.j;
        let next = if j + 1 < n {
            j + 1
        } else {
            0
        };
        let at_anchor = match self.k {
            Some(k) => k == j,
            None => false,
        };
        let ghost old_answers = self.answers@;
        if !at_anchor {
            proof {
                lemma_push_keeps(old_answers, (self.i as int, j as int, zero));
            }
            self.answers = Ghost(self.answers@.push((self.i as int, j as int, zero)));
        }
        if !at_anchor && zero {
            proof {
                if let Some(k) = self.k {
                    assert(self.pos(next as int) == self.pos(j as int) + 1);
                }
                let ni = self.i as int;
                let nn = n as int;
                if !self.entered {
                    assert forall|x: int| 0 <= x < next implies #[trigger] said_zero(
                        self.answers@,
                        nn - 1,
                        x,
                    ) by {
                        if x < j {
                            assert(said_zero(old_answers, nn - 1, x));
                        }
                    }
                } else if self.k is None {
                    assert forall|x: int|
                        0 <= x < nn && #[trigger] between(ni, x, next as int, nn) implies said_zero(
                        self.answers@,
                        ni,
                        x,
                    ) by {
                        if x != j {
                            assert(between(ni, x, j as int, nn));
                            assert(said_zero(old_answers, ni, x));
                        }
                    }
                }
            }
            self.j = next;
            return Step::Skip;
        }
        if !self.entered {
            proof {
                let nn = n as int;
                assert(said_nonzero(self.answers@, nn - 1, j as int));
                assert forall|x: int|
                    0 <= x < nn && #[trigger] between(j as int, x, next as int, nn) implies said_zero(
                    self.answers@,
                    j as int,
                    x,
                ) by {}
            }
            self.i = j;
            self.j = next;
            self.entered = true;
            return Step::Enter;
        }
        let from = self.i;
        let ghost turned = arc(self.i as int, gap(self.i as int, j as int, n as int), n as int);
        let first = self.k.is_none();
        if first {
            self.k = Some(self.i);
        }
        proof {
            let k = self.k.unwrap() as int;
            let c = self.moved@.len() as int;
            assert(self.moved@ + turned =~= arc(k, c + gap(self.i as int, j as int, n as int), n as int));
        }
        self.moved = Ghost(self.moved@ + turned);
        self.i = j;
        self.j = next;
        Step::Turn { anchor: first, from, to: j }
    }
}

} // verus!

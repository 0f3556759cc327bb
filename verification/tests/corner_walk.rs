use vger::walk::{ContourWalk, Probe, Step};

/// Runs a walk over `len` points, answering each edge probe with
/// `zero(from, to)`; returns the steps and the points moved, in order.
fn run(len: usize, zero: impl Fn(usize, usize) -> bool) -> (Vec<Step>, Vec<usize>) {
    let mut walk = ContourWalk::new(len);
    let mut steps = Vec::new();
    let mut moved = Vec::new();
    loop {
        let z = match walk.probe() {
            Probe::Done => break,
            Probe::Anchor => false,
            Probe::Edge { from, to } => zero(from, to),
        };
        let step = walk.step(z);
        if let Step::Turn { from, to, .. } = step {
            let mut p = from;
            while p != to {
                moved.push(p);
                p = walk.after(p);
            }
        }
        steps.push(step);
        assert!(steps.len() + 1 <= 2 * len, "the walk did not end");
    }
    (steps, moved)
}

#[test]
fn a_triangle_is_turned_at_every_corner() {
    let (steps, moved) = run(3, |_, _| false);
    assert_eq!(
        steps,
        vec![
            Step::Enter,
            Step::Turn { anchor: true, from: 0, to: 1 },
            Step::Turn { anchor: false, from: 1, to: 2 },
            Step::Turn { anchor: false, from: 2, to: 0 },
        ]
    );
    assert_eq!(moved, vec![0, 1, 2]);
}

#[test]
fn the_first_probe_is_the_closing_edge() {
    let walk = ContourWalk::new(4);
    assert_eq!(walk.probe(), Probe::Edge { from: 3, to: 0 });
}

#[test]
fn the_last_corner_uses_the_anchor_edge() {
    let mut walk = ContourWalk::new(2);
    assert_eq!(walk.probe(), Probe::Edge { from: 1, to: 0 });
    assert_eq!(walk.step(false), Step::Enter);
    assert_eq!(walk.probe(), Probe::Edge { from: 0, to: 1 });
    assert_eq!(walk.step(false), Step::Turn { anchor: true, from: 0, to: 1 });
    assert_eq!(walk.probe(), Probe::Anchor);
    assert_eq!(walk.step(false), Step::Turn { anchor: false, from: 1, to: 0 });
    assert_eq!(walk.probe(), Probe::Done);
}

#[test]
fn a_contour_of_one_point_or_none_is_not_walked() {
    assert_eq!(ContourWalk::new(0).probe(), Probe::Done);
    assert_eq!(ContourWalk::new(1).probe(), Probe::Done);
}

#[test]
fn a_contour_of_coinciding_points_moves_nothing() {
    let (steps, moved) = run(4, |_, _| true);
    assert_eq!(steps, vec![Step::Skip, Step::Skip, Step::Skip]);
    assert!(moved.is_empty());
}

#[test]
fn points_on_a_zero_length_edge_move_with_the_corner_before_them() {
    // Points 1 and 2 coincide.
    let same = |a: usize, b: usize| (a == 1 && b == 2) || (a == 2 && b == 1);
    let (steps, moved) = run(4, same);
    assert_eq!(
        steps,
        vec![
            Step::Enter,
            Step::Turn { anchor: true, from: 0, to: 1 },
            Step::Skip,
            Step::Turn { anchor: false, from: 1, to: 3 },
            Step::Turn { anchor: false, from: 3, to: 0 },
        ]
    );
    assert_eq!(moved, vec![0, 1, 2, 3]);
}

#[test]
fn every_point_moves_once_from_the_first_corner() {
    // Only points 0, 3 and 5 of eight are distinct corners.
    let group = |p: usize| if p < 3 { 0 } else if p < 5 { 3 } else { 5 };
    let (steps, moved) = run(8, |a, b| group(a) == group(b));
    // The walk enters on the closing edge and first turns at point 0.
    assert_eq!(steps[0], Step::Enter);
    assert_eq!(steps[3], Step::Turn { anchor: true, from: 0, to: 3 });
    assert_eq!(moved, (0..8).collect::<Vec<_>>());
}

#[test]
fn a_walk_that_never_turns_moves_nothing() {
    // Only the closing edge has length: the walk enters and never turns.
    let (steps, moved) = run(3, |a, b| !(a == 2 && b == 0));
    assert_eq!(steps, vec![Step::Enter, Step::Skip, Step::Skip]);
    assert!(moved.is_empty());
}

#[test]
fn the_point_after_the_last_is_the_first() {
    let walk = ContourWalk::new(3);
    assert_eq!(walk.after(0), 1);
    assert_eq!(walk.after(1), 2);
    assert_eq!(walk.after(2), 0);
}

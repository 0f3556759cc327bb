use vger::contour::{contours, Verb};
use vger::walk::{ContourWalk, Probe, Step};
use vger::winding::contour_edges;

type Pt = (f32, f32);

/// A square dot above a bar, both counterclockwise, the dot first:
/// the shape of an `i` whose dot leads its outline.
fn dot_over_bar() -> (Vec<Pt>, Vec<Verb>) {
    let points = vec![
        (4.0, 10.0),
        (6.0, 10.0),
        (6.0, 12.0),
        (4.0, 12.0),
        (10.0, 0.0),
        (10.0, 1.0),
        (0.0, 1.0),
        (0.0, 0.0),
    ];
    let square = [Verb::MoveTo, Verb::LineTo, Verb::LineTo, Verb::LineTo, Verb::Close];
    (points, [square, square].concat())
}

fn signed_area(points: &[Pt]) -> f32 {
    let mut prev = points[points.len() - 1];
    let mut area = 0.0;
    for cur in points {
        area += (cur.1 - prev.1) * (cur.0 + prev.0);
        prev = *cur;
    }
    area / 2.0
}

/// The winding of `points` summed over the edges the library picks.
fn winding(points: &[Pt], ranges: &[std::ops::Range<usize>]) -> u8 {
    let mut area = 0.0;
    for (from, to) in contour_edges(ranges) {
        let (prev, cur) = (points[from], points[to]);
        area += (cur.1 - prev.1) * (cur.0 + prev.0);
    }
    if area > 0.0 {
        1
    } else {
        0
    }
}

/// One contour emboldened by driving the library's walk with the corner
/// geometry of a faux bold.
fn embolden_contour(points: &mut [Pt], winding: u8, strength: f32) {
    let mut walk = ContourWalk::new(points.len());
    let (mut in_, mut in_len): (Pt, f32) = ((0.0, 0.0), 0.0);
    let (mut anchor, mut anchor_len): (Pt, f32) = ((0.0, 0.0), 0.0);
    loop {
        let (out, out_len, zero) = match walk.probe() {
            Probe::Done => break,
            Probe::Anchor => (anchor, anchor_len, false),
            Probe::Edge { from, to } => {
                let out = (points[to].0 - points[from].0, points[to].1 - points[from].1);
                let len = (out.0 * out.0 + out.1 * out.1).sqrt();
                if len == 0.0 {
                    (out, len, true)
                } else {
                    ((out.0 / len, out.1 / len), len, false)
                }
            }
        };
        match walk.step(zero) {
            Step::Skip => continue,
            Step::Enter => {}
            Step::Turn { anchor: first, from, to } => {
                if first {
                    anchor = in_;
                    anchor_len = in_len;
                }
                let mut d = in_.0 * out.0 + in_.1 * out.1;
                let shift = if d > -0.9396 {
                    d += 1.0;
                    let mut sx = in_.1 + out.1;
                    let mut sy = in_.0 + out.0;
                    let mut q = out.0 * in_.1 - out.1 * in_.0;
                    if winding == 0 {
                        sx = -sx;
                        q = -q;
                    } else {
                        sy = -sy;
                    }
                    let l = in_len.min(out_len);
                    sx = if strength * q <= l * d { sx * strength / d } else { sx * l / q };
                    sy = if strength * q <= l * d { sy * strength / d } else { sy * l / q };
                    (sx, sy)
                } else {
                    (0.0, 0.0)
                };
                let mut p = from;
                while p != to {
                    points[p].0 += strength + shift.0;
                    points[p].1 += strength + shift.1;
                    p = walk.after(p);
                }
            }
        }
        in_ = out;
        in_len = out_len;
    }
}

fn embolden(points: &mut [Pt], verbs: &[Verb], strength: f32) {
    let ranges = contours(verbs);
    let w = winding(points, &ranges);
    for r in ranges {
        embolden_contour(&mut points[r], w, strength);
    }
}

#[test]
fn winding_ignores_the_edges_between_contours() {
    let (points, verbs) = dot_over_bar();
    // Strung together as one polygon, as swash takes them, the points
    // wind clockwise, which is what thinned the glyph.
    assert!(signed_area(&points) < 0.0);
    assert_eq!(winding(&points, &contours(&verbs)), 1);
}

#[test]
fn embolden_grows_every_contour() {
    let (mut points, verbs) = dot_over_bar();
    embolden(&mut points, &verbs, 0.5);
    // swash's faux bold widens a stroke by twice its strength.
    let areas = [signed_area(&points[..4]), signed_area(&points[4..])];
    assert!((areas[0] - 3.0 * 3.0).abs() < 1e-4, "{areas:?}");
    assert!((areas[1] - 11.0 * 2.0).abs() < 1e-4, "{areas:?}");
}

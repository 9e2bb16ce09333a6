use rdp::subsequence::select;
use rdp::worklist::Simplifier;

/// Runs the engine on `n` points, taking the split position (or none) for
/// each range from `decisions` in turn, and returns the kept positions.
fn run(n: usize, decisions: &[(usize, usize, Option<usize>)]) -> Vec<usize> {
    let mut w = Simplifier::new(n);
    let mut steps = decisions.iter();
    while let Some((s, e)) = w.pending() {
        let (ds, de, split) = *steps.next().expect("engine asked for more ranges than expected");
        assert_eq!((ds, de), (s, e));
        match split {
            Some(m) => w.split(m),
            None => w.collapse(),
        }
    }
    assert!(steps.next().is_none());
    w.kept()
}

#[test]
fn short_inputs_are_kept_whole() {
    for n in 0..3usize {
        let w = Simplifier::new(n);
        assert_eq!(w.pending(), None);
        assert_eq!(w.kept(), (0..n).collect::<Vec<usize>>());
    }
}

#[test]
fn single_point_is_unchanged() {
    let v = vec![(1.0f64, 1.0f64)];
    let w = Simplifier::new(v.len());
    assert_eq!(select(&v, &w.kept()), vec![(1.0, 1.0)]);
}

#[test]
fn two_points_are_unchanged() {
    let v = vec![(1.0f64, 1.0f64), (2.0, 2.0)];
    let w = Simplifier::new(v.len());
    assert_eq!(select(&v, &w.kept()), vec![(1.0, 1.0), (2.0, 2.0)]);
}

#[test]
fn first_range_is_whole_polyline() {
    let w = Simplifier::new(7);
    assert_eq!(w.pending(), Some((0, 6)));
    assert!(w.kept().is_empty());
}

#[test]
fn collinear_interior_point_dropped() {
    let v = vec![(1.0f64, 1.0f64), (2.0, 2.0), (3.0, 3.0)];
    let kept = run(v.len(), &[(0, 2, None)]);
    assert_eq!(kept, vec![0, 2]);
    assert_eq!(select(&v, &kept), vec![(1.0, 1.0), (3.0, 3.0)]);
}

#[test]
fn tight_tolerance_keeps_all() {
    let v = vec![(0.0f64, 2.0f64), (1.0, 1.0), (3.0, 0.0), (5.0, 1.0)];
    let kept = run(v.len(), &[(0, 3, Some(2)), (0, 2, Some(1)), (0, 1, None), (1, 2, None), (2, 3, None)]);
    assert_eq!(kept, vec![0, 1, 2, 3]);
    assert_eq!(select(&v, &kept), v);
}

#[test]
fn looser_tolerance_drops_one_point() {
    let v = vec![(0.0f64, 2.0f64), (1.0, 1.0), (3.0, 0.0), (5.0, 1.0)];
    let kept = run(v.len(), &[(0, 3, Some(2)), (0, 2, None), (2, 3, None)]);
    assert_eq!(kept, vec![0, 2, 3]);
    assert_eq!(select(&v, &kept), vec![(0.0, 2.0), (3.0, 0.0), (5.0, 1.0)]);
}

#[test]
fn closed_loop_keeps_corners_and_repeated_endpoint() {
    let v = vec![
        (0.0f64, 0.0f64), (1.0, 0.0), (2.0, 0.0), (2.0, 1.0), (2.0, 2.0),
        (1.0, 2.0), (0.0, 2.0), (0.0, 1.0), (0.0, 0.0),
    ];
    let kept = run(
        v.len(),
        &[
            (0, 8, Some(4)),
            (0, 4, Some(2)),
            (0, 2, None),
            (2, 4, None),
            (4, 8, Some(6)),
            (4, 6, None),
            (6, 8, None),
        ],
    );
    assert_eq!(kept, vec![0, 2, 4, 6, 8]);
    assert_eq!(
        select(&v, &kept),
        vec![(0.0, 0.0), (2.0, 0.0), (2.0, 2.0), (0.0, 2.0), (0.0, 0.0)]
    );
}

#[test]
fn shared_boundary_emitted_once() {
    let kept = run(5, &[(0, 4, Some(1)), (0, 1, None), (1, 4, Some(3)), (1, 3, None), (3, 4, None)]);
    assert_eq!(kept, vec![0, 1, 3, 4]);
}

#[test]
fn every_split_keeps_every_point() {
    let n = 6usize;
    let mut w = Simplifier::new(n);
    while let Some((s, e)) = w.pending() {
        if e > s + 1 {
            w.split(e - 1);
        } else {
            w.collapse();
        }
    }
    assert_eq!(w.kept(), (0..n).collect::<Vec<usize>>());
}

#[test]
fn steps_within_twice_the_length() {
    let n = 50usize;
    let mut w = Simplifier::new(n);
    let mut steps = 0usize;
    while let Some((s, e)) = w.pending() {
        if e > s + 1 && (s + e) % 3 == 0 {
            w.split((s + e) / 2);
        } else {
            w.collapse();
        }
        steps += 1;
    }
    assert!(steps <= 2 * n);
    let kept = w.kept();
    assert_eq!(kept[0], 0);
    assert_eq!(*kept.last().unwrap(), n - 1);
    assert!(kept.windows(2).all(|p| p[0] < p[1]));
}

#[test]
fn payload_carried_through() {
    let v = vec![(1.0f64, 1.0f64, 1i32), (2.0, 2.0, 2), (3.0, 3.0, 3)];
    let kept = run(v.len(), &[(0, 2, None)]);
    assert_eq!(select(&v, &kept), vec![(1.0, 1.0, 1), (3.0, 3.0, 3)]);
}

#[test]
fn select_follows_given_positions() {
    let v = vec![10u32, 20, 30, 40];
    assert_eq!(select(&v, &vec![3, 0, 3]), vec![40, 10, 40]);
    assert_eq!(select(&v, &vec![]), Vec::<u32>::new());
}

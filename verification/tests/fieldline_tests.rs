use rustronomy::{
    check_axes, check_field_lengths, field_line, find_lines, pair_footpoints,
    integration_defaults, join_line, trace, FieldlineError, DEFAULT_MAX_STEPS,
};

#[test]
fn axes_need_two_points_each() {
    assert_eq!(check_axes(1, 5), Err(FieldlineError::TooFewAxisPoints));
    assert_eq!(check_axes(5, 1), Err(FieldlineError::TooFewAxisPoints));
    assert_eq!(check_axes(0, 0), Err(FieldlineError::TooFewAxisPoints));
    assert_eq!(check_axes(2, 2), Ok(()));
}

#[test]
fn footpoints_need_equal_lengths() {
    assert_eq!(
        pair_footpoints(Some(vec![1, 2]), Some(vec![3, 4, 5])),
        Err(FieldlineError::FootpointLengthMismatch)
    );
    assert_eq!(pair_footpoints(Some(vec![1, 2]), Some(vec![3, 4])), Ok(vec![(1, 3), (2, 4)]));
    assert_eq!(pair_footpoints::<i32>(Some(vec![]), Some(vec![])), Ok(vec![]));
}

#[test]
fn footpoints_must_both_be_given() {
    assert_eq!(pair_footpoints(None, Some(vec![1])), Err(FieldlineError::MissingFootpoints));
    assert_eq!(pair_footpoints(Some(vec![1]), None), Err(FieldlineError::MissingFootpoints));
    assert_eq!(pair_footpoints::<i32>(None, None), Err(FieldlineError::MissingFootpoints));
}

#[test]
fn float_footpoints_pair_in_order() {
    let seeds = pair_footpoints(Some(vec![0.1, 0.2]), Some(vec![0.1, 0.3])).unwrap();
    assert_eq!(seeds, vec![(0.1, 0.1), (0.2, 0.3)]);
}

#[test]
fn field_lengths_must_match_the_grid() {
    assert_eq!(check_field_lengths(3, 2, 6, 6), Ok(()));
    assert_eq!(
        check_field_lengths(3, 2, 5, 6),
        Err(FieldlineError::FieldLengthMismatch { bx_len: 5, by_len: 6, nx: 3, ny: 2 })
    );
    assert_eq!(
        check_field_lengths(3, 2, 6, 7),
        Err(FieldlineError::FieldLengthMismatch { bx_len: 6, by_len: 7, nx: 3, ny: 2 })
    );
    assert_eq!(
        check_field_lengths(usize::MAX, 2, 0, 0),
        Err(FieldlineError::FieldLengthMismatch { bx_len: 0, by_len: 0, nx: usize::MAX, ny: 2 })
    );
}

#[test]
fn fieldline_error_messages() {
    assert_eq!(
        FieldlineError::TooFewAxisPoints.message(),
        "x1 and x2 must each contain at least 2 points"
    );
    assert_eq!(
        FieldlineError::MissingFootpoints.message(),
        "Footpoints not provided. Please provide x0 and y0."
    );
    assert_eq!(
        FieldlineError::FootpointLengthMismatch.message(),
        "x0 and y0 must have the same length"
    );
    let e = FieldlineError::FieldLengthMismatch { bx_len: 1, by_len: 2, nx: 3, ny: 4 };
    assert_eq!(e.message(), "Field arrays must have length nx * ny");
}

#[test]
fn defaults_apply_only_when_missing() {
    assert_eq!(integration_defaults(None, None), (16384, true));
    assert_eq!(DEFAULT_MAX_STEPS, 16384);
    assert_eq!(integration_defaults(Some(7), Some(false)), (7, false));
    assert_eq!(integration_defaults(Some(0), None), (0, true));
}

#[test]
fn join_reverses_backward_and_skips_the_repeated_seed() {
    let backward = vec![5, 4, 3];
    let forward = vec![5, 6, 7];
    assert_eq!(join_line(&backward, &forward), vec![3, 4, 5, 6, 7]);
    assert_eq!(join_line(&vec![5], &vec![5]), vec![5]);
    assert_eq!(join_line::<i32>(&vec![], &vec![]), Vec::<i32>::new());
    assert_eq!(join_line(&vec![], &vec![5, 6]), vec![6]);
}

#[test]
fn joined_line_passes_through_the_seed() {
    let backward = vec![10, 9, 8, 7];
    let forward = vec![10, 11];
    let line = join_line(&backward, &forward);
    assert_eq!(line.len(), backward.len() + forward.len() - 1);
    let at_seed = backward.len() - 1;
    assert_eq!(line[at_seed], 10);
    for (k, p) in backward.iter().enumerate() {
        assert_eq!(line[at_seed - k], *p);
    }
    for (k, p) in forward.iter().enumerate() {
        assert_eq!(line[at_seed + k], *p);
    }
}

fn inside(p: i32) -> bool {
    (0..=20).contains(&p)
}

fn up(p: i32) -> Option<i32> {
    if p < 7 {
        Some(p + 1)
    } else {
        None
    }
}

fn down(p: i32) -> Option<i32> {
    if p > 3 {
        Some(p - 1)
    } else {
        None
    }
}

fn never(_seed: i32, _k: usize, _p: i32) -> bool {
    false
}

#[test]
fn open_line_joins_both_directions() {
    let line = field_line(5, &inside, &up, &down, 100, true, &never);
    assert_eq!(line, Some(vec![3, 4, 5, 6, 7]));
}

#[test]
fn line_from_outside_is_dropped() {
    assert_eq!(field_line(30, &inside, &up, &down, 100, true, &never), None);
}

#[test]
fn single_point_line_is_dropped() {
    // Both directions fail at once: only the seed is left.
    assert_eq!(field_line(7, &inside, &up, &|_p: i32| None, 100, true, &never), None);
}

fn cycle(p: i32) -> Option<i32> {
    Some((p + 1) % 4)
}

fn back_home(seed: i32, _k: usize, p: i32) -> bool {
    p == seed
}

#[test]
fn closed_loop_is_kept_whole() {
    let line = field_line(0, &inside, &cycle, &down, 100, true, &back_home);
    assert_eq!(line, Some(vec![0, 1, 2, 3, 0, 0]));
}

#[test]
fn closed_loop_ignored_when_closing_is_off() {
    let line = field_line(0, &inside, &cycle, &|_p: i32| None, 5, false, &back_home);
    assert_eq!(line, Some(vec![0, 1, 2, 3, 0, 1]));
}

#[test]
fn find_lines_keeps_seed_order_and_skips_empty() {
    let seeds = vec![5, 30, 4];
    let lines = find_lines(&seeds, &inside, &up, &down, 100, true, &never);
    assert_eq!(lines, vec![vec![3, 4, 5, 6, 7], vec![3, 4, 5, 6, 7]]);
    let none: Vec<i32> = vec![];
    assert!(find_lines(&none, &inside, &up, &down, 100, true, &never).is_empty());
}

#[test]
fn line_without_closing_is_the_join_of_plain_traces() {
    let fwd = trace(0, &inside, &cycle, 5);
    let bwd = trace(0, &inside, &down, 5);
    let expected = join_line(&bwd, &fwd);
    assert_eq!(field_line(0, &inside, &cycle, &down, 5, false, &back_home), Some(expected.clone()));
    // The closing test does not matter when closing is off.
    assert_eq!(field_line(0, &inside, &cycle, &down, 5, false, &never), Some(expected));
}

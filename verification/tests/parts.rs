use waterlevels::direction::Direction;
use waterlevels::parts::{
    calculate_filling_velocity, calculate_next_configuration_change, find_destination,
    is_accept_water, Part, Parts,
};
use waterlevels::rat::Rat;

fn rat(n: i64) -> Rat {
    Rat::from_int(n)
}

fn ratq(n: i64, d: i64) -> Rat {
    Rat::new(n, d).unwrap()
}

fn profile(heights: &[i64]) -> Vec<Rat> {
    heights.iter().map(|&h| rat(h)).collect()
}

fn part(height: Rat, lo: usize, hi: usize) -> Part {
    Part { height, lo, hi }
}

#[test]
fn test_example() {
    let parts = Parts::new(&profile(&[3, 1, 6, 4, 8, 9])).unwrap();

    assert_eq!(find_destination(parts.as_ref(), 0, Direction::Right).unwrap(), 1);
    assert!(find_destination(parts.as_ref(), 0, Direction::Left).is_none());
    assert!(!is_accept_water(parts.as_ref(), 0));

    assert!(is_accept_water(parts.as_ref(), 1));

    assert_eq!(find_destination(parts.as_ref(), 2, Direction::Right).unwrap(), 3);
    assert_eq!(find_destination(parts.as_ref(), 2, Direction::Left).unwrap(), 1);
    assert!(!is_accept_water(parts.as_ref(), 2));

    assert!(is_accept_water(parts.as_ref(), 3));

    assert!(find_destination(parts.as_ref(), 4, Direction::Right).is_none());
    assert_eq!(find_destination(parts.as_ref(), 4, Direction::Left).unwrap(), 3);
    assert!(!is_accept_water(parts.as_ref(), 4));

    assert!(find_destination(parts.as_ref(), 5, Direction::Right).is_none());
    assert_eq!(find_destination(parts.as_ref(), 5, Direction::Left).unwrap(), 3);
    assert!(!is_accept_water(parts.as_ref(), 5));

    let velocities = calculate_filling_velocity(parts.as_ref());
    assert_eq!(
        velocities,
        vec![(rat(0), 1), (ratq(5, 2), 1), (rat(0), 1), (ratq(7, 2), 1), (rat(0), 1), (rat(0), 1)],
    );

    let (next_configuration_changes, time_before_change) =
        calculate_next_configuration_change(parts.as_ref(), &velocities).unwrap().unwrap();

    assert_eq!(next_configuration_changes, vec![(3, rat(6))]);
    assert!(time_before_change.eq_rat(ratq(4, 7)));

    let next_parts =
        Parts::new_from_parts_and_changes(parts.as_ref(), &next_configuration_changes).unwrap();
    assert_eq!(
        next_parts.as_ref(),
        &vec![
            part(rat(3), 0, 1),
            part(rat(1), 1, 2),
            part(rat(6), 2, 4),
            part(rat(8), 4, 5),
            part(rat(9), 5, 6),
        ],
    );

    let velocities = calculate_filling_velocity(next_parts.as_ref());
    let (next_configuration_changes, time_before_change) =
        calculate_next_configuration_change(next_parts.as_ref(), &velocities).unwrap().unwrap();

    assert_eq!(next_configuration_changes, vec![(1, rat(3))]);
    assert!(time_before_change.eq_rat(ratq(2, 6)));

    let next_parts =
        Parts::new_from_parts_and_changes(next_parts.as_ref(), &next_configuration_changes)
            .unwrap();
    assert_eq!(
        next_parts.as_ref(),
        &vec![part(rat(3), 0, 2), part(rat(6), 2, 4), part(rat(8), 4, 5), part(rat(9), 5, 6)],
    );

    let velocities = calculate_filling_velocity(next_parts.as_ref());

    let (next_configuration_changes, time_before_change) =
        calculate_next_configuration_change(next_parts.as_ref(), &velocities).unwrap().unwrap();

    assert_eq!(next_configuration_changes, vec![(0, rat(6))]);
    assert!(time_before_change.eq_rat(ratq(3, 3)));

    let next_parts =
        Parts::new_from_parts_and_changes(next_parts.as_ref(), &next_configuration_changes)
            .unwrap();
    assert_eq!(
        next_parts.as_ref(),
        &vec![part(rat(6), 0, 4), part(rat(8), 4, 5), part(rat(9), 5, 6)],
    );

    let velocities = calculate_filling_velocity(next_parts.as_ref());

    let (next_configuration_changes, time_before_change) =
        calculate_next_configuration_change(next_parts.as_ref(), &velocities).unwrap().unwrap();

    assert_eq!(next_configuration_changes, vec![(0, rat(8))]);
    assert!(time_before_change.eq_rat(ratq(4, 3)));

    let next_parts =
        Parts::new_from_parts_and_changes(next_parts.as_ref(), &next_configuration_changes)
            .unwrap();
    assert_eq!(next_parts.as_ref(), &vec![part(rat(8), 0, 5), part(rat(9), 5, 6)]);

    let velocities = calculate_filling_velocity(next_parts.as_ref());

    let (next_configuration_changes, time_before_change) =
        calculate_next_configuration_change(next_parts.as_ref(), &velocities).unwrap().unwrap();

    assert_eq!(next_configuration_changes, vec![(0, rat(9))]);
    assert!(time_before_change.eq_rat(ratq(5, 6)));

    let next_parts =
        Parts::new_from_parts_and_changes(next_parts.as_ref(), &next_configuration_changes)
            .unwrap();
    assert_eq!(next_parts.as_ref(), &vec![part(rat(9), 0, 6)]);

    let velocities = calculate_filling_velocity(next_parts.as_ref());
    assert!(calculate_next_configuration_change(next_parts.as_ref(), &velocities)
        .unwrap()
        .is_none());
}

#[test]
fn test_with_duplicates() {
    let parts = Parts::new(&profile(&[3, 1, 1, 2, 2, 4])).unwrap();

    assert_eq!(find_destination(parts.as_ref(), 2, Direction::Left).unwrap(), 1);
    assert_eq!(find_destination(parts.as_ref(), 3, Direction::Left).unwrap(), 1);

    let velocities = calculate_filling_velocity(parts.as_ref());
    assert_eq!(velocities, vec![(rat(0), 1), (rat(6), 2), (rat(0), 2), (rat(0), 1)]);

    let (next_configuration_change_indices, time_before_change) =
        calculate_next_configuration_change(parts.as_ref(), &velocities).unwrap().unwrap();

    assert_eq!(next_configuration_change_indices, vec![(1, rat(2))]);
    assert!(time_before_change.eq_rat(ratq(2, 6)));
}

#[test]
fn test_with_multiple_parts_reaching_configuration_change_at_the_same_time() {
    let parts = Parts::new(&profile(&[3, 2, 4, 3, 4])).unwrap();

    let velocities = calculate_filling_velocity(parts.as_ref());
    assert_eq!(
        velocities,
        vec![(rat(0), 1), (ratq(5, 2), 1), (rat(0), 1), (ratq(5, 2), 1), (rat(0), 1)],
    );

    let (next_configuration_change_idx, _time_before_change) =
        calculate_next_configuration_change(parts.as_ref(), &velocities).unwrap().unwrap();

    assert_eq!(next_configuration_change_idx, vec![(1, rat(3)), (3, rat(4))]);
}

#[test]
fn test_single_element() {
    let parts = Parts::new(&profile(&[3])).unwrap();
    assert!(find_destination(parts.as_ref(), 0, Direction::Right).is_none());

    let velocities = calculate_filling_velocity(parts.as_ref());
    assert_eq!(velocities, vec![(rat(1), 1)]);

    assert!(calculate_next_configuration_change(parts.as_ref(), &velocities).unwrap().is_none());
}

#[test]
fn test_multiple_elements() {
    let parts = Parts::new(&profile(&[1, 1, 3])).unwrap();
    let velocities = calculate_filling_velocity(parts.as_ref());

    assert_eq!(velocities, vec![(rat(3), 2), (rat(0), 1)]);
}

#[test]
fn test_empty() {
    assert!(Parts::new(&Vec::new()).is_err());
}

#[test]
fn duplicate_heights_group_into_one_segment() {
    let parts = Parts::new(&profile(&[0, 2, 2, 1, 2])).unwrap();
    assert_eq!(
        parts.as_ref(),
        &vec![part(rat(0), 0, 1), part(rat(2), 1, 3), part(rat(1), 3, 4), part(rat(2), 4, 5)],
    );
}

#[test]
fn segment_accessors_expose_span_and_height() {
    let parts = Parts::new(&profile(&[5, 5, 7])).unwrap();
    let segs = parts.as_ref();
    assert_eq!(segs.len(), 2);
    assert_eq!(segs[0].height(), rat(5));
    assert_eq!(segs[0].range(), 0..2);
    assert_eq!(segs[1].height(), rat(7));
    assert_eq!(segs[1].range(), 2..3);
}

#[test]
fn overflow_and_zero_divisor_are_reported() {
    let big = Rat::from_int(i64::MAX);
    let third = ratq(1, 3);
    // (3 * i64::MAX + 1) / 3 has no i64 representation
    assert!(big.add(third).is_none());
    assert!(big.mul(big).is_none());
    // dividing by zero never succeeds
    assert!(rat(1).div(rat(0)).is_none());
    // values that stay representable always succeed
    assert!(big.sub(rat(1)).is_some());
    assert!(big.mul(rat(1)).is_some());
}

#[test]
fn exact_rational_reduction() {
    assert_eq!(Rat::new(10, 4).unwrap(), ratq(5, 2));
    assert_eq!(Rat::new(-6, 3).unwrap(), rat(-2));
    assert_eq!(Rat::new(3, -6).unwrap(), Rat::new(-1, 2).unwrap());
    assert!(Rat::new(1, 0).is_none());
    assert!(ratq(1, 3).lt(ratq(1, 2)));
    assert!(ratq(2, 4).eq_rat(ratq(1, 2)));
    let sum = ratq(1, 3).add(ratq(1, 6)).unwrap();
    assert!(sum.eq_rat(ratq(1, 2)));
}

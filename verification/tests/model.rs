use waterlevels::error::Error;
use waterlevels::model::Model;
use waterlevels::rat::Rat;

fn rat(n: i64) -> Rat {
    Rat::from_int(n)
}

fn profile(heights: &[i64]) -> Vec<Rat> {
    heights.iter().map(|&h| rat(h)).collect()
}

#[test]
fn test_basic() {
    let model = Model::new(&profile(&[3, 1, 6, 4, 8, 9]), rat(20)).unwrap();
    assert_eq!(model.generation_count(), 6);

    model.calculate_levels(rat(0)).unwrap();
}

#[test]
fn test_duplicates_after_merge_collapsing() {
    Model::new(&profile(&[0, 2, 2, 1, 2]), rat(20)).unwrap();
}

#[test]
fn test_sequential_elements() {
    let model = Model::new(&profile(&[1, 2, 3, 4, 5, 6, 7]), rat(5)).unwrap();
    let r = model.calculate_levels(rat(5)).unwrap();
    for item in r {
        assert!(item.eq_rat(rat(9)));
    }
}

#[test]
fn flat_terminal_state_is_exact() {
    // A strictly increasing ramp equalizes completely: (1+..+7)/7 + 5 == 9.
    let model = Model::new(&profile(&[1, 2, 3, 4, 5, 6, 7]), rat(5)).unwrap();
    let r = model.calculate_levels(rat(5)).unwrap();
    assert_eq!(r.len(), 7);
    for item in r {
        assert_eq!(item, rat(9));
    }
}

#[test]
fn conservation_at_sample_times() {
    // sum(h(t)) - sum(h(0)) == N * t, exactly.
    let heights = [3i64, 1, 6, 4, 8, 9];
    let model = Model::new(&profile(&heights), rat(20)).unwrap();
    let sum0: i64 = heights.iter().sum();
    for t in [0i64, 1, 2, 3, 5, 10, 20] {
        let levels = model.calculate_levels(rat(t)).unwrap();
        let mut total = rat(0);
        for level in levels {
            total = total.add(level).unwrap();
        }
        let expected = rat(sum0 + 6 * t);
        assert!(total.eq_rat(expected));
    }
}

#[test]
fn levels_non_decreasing_over_time() {
    let model = Model::new(&profile(&[3, 1, 6, 4, 8, 9]), rat(20)).unwrap();
    let mut prev = model.calculate_levels(rat(0)).unwrap();
    for t in 1i64..=20 {
        let cur = model.calculate_levels(rat(t)).unwrap();
        for (a, b) in prev.iter().zip(cur.iter()) {
            assert!(a.le(*b));
        }
        prev = cur;
    }
}

#[test]
fn stable_tail_follows_linear_law() {
    // [1, 2] merges at t = 1/2 into one segment that then rises one
    // height unit per time unit: h(t) = 2 + (t - 1/2) afterwards.
    let model = Model::new(&profile(&[1, 2]), rat(100)).unwrap();
    assert_eq!(model.generation_count(), 2);
    for t in [1i64, 2, 10, 100] {
        let levels = model.calculate_levels(rat(t)).unwrap();
        let expected = rat(2).add(rat(t).sub(Rat::new(1, 2).unwrap()).unwrap()).unwrap();
        assert_eq!(levels.len(), 2);
        assert!(levels[0].eq_rat(expected));
        assert!(levels[1].eq_rat(expected));
    }
}

#[test]
fn stable_profiles_always_construct() {
    // a flat profile has no events: a single unbounded generation
    let m = Model::new(&profile(&[5, 5, 5]), rat(7)).unwrap();
    assert_eq!(m.generation_count(), 1);
    let levels = m.calculate_levels(rat(7)).unwrap();
    for level in levels {
        assert_eq!(level, rat(12));
    }

    let single = Model::new(&profile(&[0]), rat(3)).unwrap();
    assert_eq!(single.generation_count(), 1);
    let levels = single.calculate_levels(rat(3)).unwrap();
    assert_eq!(levels, vec![rat(3)]);
}

#[test]
fn boundary_errors() {
    assert_eq!(Model::new(&Vec::new(), rat(5)).unwrap_err(), Error::EmptyInput);
    assert_eq!(
        Model::new(&vec![rat(1), rat(-2), rat(3)], rat(5)).unwrap_err(),
        Error::NegativeHeight,
    );

    let model = Model::new(&profile(&[1, 2, 3]), rat(5)).unwrap();
    assert_eq!(model.calculate_levels(rat(-1)).unwrap_err(), Error::NegativeTime);
    assert_eq!(model.calculate_levels(rat(6)).unwrap_err(), Error::TimeBeyondHorizon);
}

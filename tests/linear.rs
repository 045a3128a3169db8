use d3rs::scales::{DomainScale, IterableScale, Linear, Result, ScaleError};

fn show_result<DT: std::fmt::Debug + d3rs::ScaleNumber>(scale: Result<Linear<DT>>) -> bool {
    match scale {
        Ok(scale) => {
            println!("linear={:?}", scale);
            true
        }
        Err(err) => {
            println!("Failed to create: {}", err.message());
            false
        }
    }
}

fn collect<DT: d3rs::ScaleNumber>(mut iter: d3rs::DomainIter<DT>) -> Vec<(DT, usize)> {
    let mut out = Vec::new();
    while let Some(item) = iter.next() {
        out.push(item);
        if out.len() > 100_000 {
            break;
        }
    }
    out
}

#[test]
fn numerical() {
    assert!(show_result(Linear::try_new(360_i64, -360, 300)));
    assert!(!show_result(Linear::try_new(
        -9_007_199_254_740_990_i64,
        9_007_199_254_740_990,
        1,
    )));
    assert!(!show_result(Linear::try_new(7000, 9_007_199_254_740_995_i64, 1)));
    assert!(show_result(Linear::try_new(0_u16, 65533, 10)));
}

#[test]
fn dimension_below_five_is_too_small() {
    for dimension in 0..5 {
        assert!(matches!(
            Linear::try_new(0_i32, 100, dimension),
            Err(ScaleError::DimensionTooSmall)
        ));
        assert!(matches!(
            Linear::try_new(100_i32, 0, dimension),
            Err(ScaleError::DimensionTooSmall)
        ));
    }
    assert!(matches!(
        Linear::try_new(i64::MIN, i64::MAX, 4),
        Err(ScaleError::DimensionTooSmall)
    ));
    assert!(Linear::try_new(0_i32, 100, 5).is_ok());
}

#[test]
fn minimum_out_of_range() {
    match Linear::try_new(-9_007_199_254_740_992_i64, 0, 10) {
        Err(ScaleError::OutOfRange { explain }) => assert_eq!(
            explain,
            "minimum value -9007199254740992 is out of range; must be larger than -9007199254740991"
        ),
        _ => panic!("expected OutOfRange"),
    }
}

#[test]
fn maximum_out_of_range() {
    let err = Linear::try_new(7000, 9_007_199_254_740_995_i64, 10).err().unwrap();
    assert_eq!(
        err.message(),
        "Out of range: maximum value 9007199254740995 is out of range; must be less than 9007199254740990"
    );
}

#[test]
fn difference_out_of_range() {
    match Linear::try_new(9_007_199_254_740_990_i64, -9_007_199_254_740_990, 300) {
        Err(ScaleError::OutOfRange { explain }) => assert_eq!(
            explain,
            "Difference between -9007199254740990 and 9007199254740990 is out of range; must be less than 9007199254740990"
        ),
        _ => panic!("expected OutOfRange"),
    }
    match Linear::try_new(i16::MIN, 32766, 10) {
        Err(ScaleError::OutOfRange { explain }) => assert_eq!(
            explain,
            "Difference between -32768 and 32766 is out of range; must be less than 32766"
        ),
        _ => panic!("expected OutOfRange"),
    }
}

#[test]
fn error_messages() {
    assert_eq!(ScaleError::DimensionTooSmall.message(), "Dimension is too small.");
    let err = ScaleError::RangeExceedsMaximum {
        explain: String::from("x"),
    };
    assert_eq!(err.message(), "Range too large x");
}

#[test]
fn point_lookups() {
    let scale = Linear::try_new(0_i32, 100, 11).unwrap();
    assert_eq!(scale.domain_to_coordinate(50), Some(5));
    assert_eq!(scale.domain_to_coordinate(0), Some(0));
    assert_eq!(scale.domain_to_coordinate(100), Some(10));
    assert_eq!(scale.domain_to_coordinate(101), None);
    assert_eq!(scale.domain_to_coordinate(-1), None);
    assert_eq!(scale.coordinate_to_domain(5), Some(50));
    assert_eq!(scale.coordinate_to_domain(10), Some(100));
    assert_eq!(scale.coordinate_to_domain(11), None);
}

#[test]
fn lookups_round_to_nearest() {
    let scale = Linear::try_new(0_u32, 8, 5).unwrap();
    assert_eq!(scale.domain_to_coordinate(1), Some(1));
    assert_eq!(scale.domain_to_coordinate(3), Some(2));
    let scale = Linear::try_new(0_u32, 3, 5).unwrap();
    assert_eq!(scale.coordinate_to_domain(1), Some(1));
    assert_eq!(scale.coordinate_to_domain(2), Some(2));
    assert_eq!(scale.coordinate_to_domain(3), Some(2));
}

#[test]
fn single_value_domain() {
    let scale = Linear::try_new(7_i16, 7, 5).unwrap();
    assert_eq!(scale.domain_to_coordinate(7), Some(0));
    assert_eq!(scale.coordinate_to_domain(4), Some(7));
    assert_eq!(collect(scale.iter()).len(), 5);
    assert_eq!(collect(scale.intervals(3)), vec![(7, 0)]);
}

#[test]
fn round_trip_within_one_unit() {
    let scale = Linear::try_new(0_i64, 3, 5).unwrap();
    for v in 0..=3 {
        let back = scale
            .coordinate_to_domain(scale.domain_to_coordinate(v).unwrap())
            .unwrap();
        assert!((back - v).abs() <= 1);
    }
    let scale = Linear::try_new(-50_i32, 50, 200).unwrap();
    for v in -50..=50 {
        let back = scale
            .coordinate_to_domain(scale.domain_to_coordinate(v).unwrap())
            .unwrap();
        assert_eq!(back, v);
    }
}

#[test]
fn round_trip_within_half_step() {
    let scale = Linear::try_new(0_i64, 1000, 5).unwrap();
    for v in 0..=1000 {
        let back = scale
            .coordinate_to_domain(scale.domain_to_coordinate(v).unwrap())
            .unwrap();
        assert!(2 * 4 * (back - v).abs() <= 1000 + 4);
    }
}

#[test]
fn iter_yields_one_element_per_coordinate() {
    let scale = Linear::try_new(0_i32, 8, 5).unwrap();
    assert_eq!(
        collect(scale.iter()),
        vec![(0, 0), (2, 1), (4, 2), (6, 3), (8, 4)]
    );
    let scale = Linear::try_new(360_i64, -360, 300).unwrap();
    let items = collect(scale.iter());
    assert_eq!(items.len(), 300);
    assert_eq!(items[0], (360, 0));
    assert_eq!(items[299], (-360, 299));
}

#[test]
fn reversed_iter_runs_down() {
    let scale = Linear::try_new(8_u16, 0, 5).unwrap();
    assert_eq!(
        collect(scale.iter()),
        vec![(8, 0), (6, 1), (4, 2), (2, 3), (0, 4)]
    );
}

#[test]
fn reversal_mirrors_coordinates() {
    let forward = Linear::try_new(0_i32, 100, 11).unwrap();
    let reversed = Linear::try_new(100_i32, 0, 11).unwrap();
    assert_eq!(reversed.domain_to_coordinate(30), Some(7));
    for v in 0..=100 {
        let c = forward.domain_to_coordinate(v).unwrap();
        let r = reversed.domain_to_coordinate(v).unwrap();
        if (2 * v * 10 + 100) % 200 != 0 {
            assert_eq!(r, 10 - c);
        }
    }
}

#[test]
fn integer_intervals() {
    let scale = Linear::try_new(0_i32, 10, 5).unwrap();
    assert_eq!(
        collect(scale.intervals(3)),
        vec![(0, 0), (3, 1), (6, 2), (9, 4)]
    );
    assert_eq!(collect(scale.intervals(-3)), collect(scale.intervals(3)));
    assert_eq!(collect(scale.intervals(11)), vec![(0, 0), (11, 4)]);
    let scale = Linear::try_new(360_i16, -360, 300).unwrap();
    let ticks = collect(scale.intervals(15));
    assert_eq!(ticks.len(), 49);
    assert_eq!(ticks[1], (345, 6));
    assert_eq!(ticks[48], (-360, 299));
}

#[test]
fn intervals_saturate_at_the_type_bounds() {
    let scale = Linear::try_new(65534_u16, 0, 5).unwrap();
    assert_eq!(collect(scale.intervals(65535)), vec![(65534, 0), (0, 4)]);
}

#[test]
fn zero_step_repeats_the_start() {
    let scale = Linear::try_new(0_i32, 10, 5).unwrap();
    let mut iter = scale.intervals(0);
    assert_eq!(iter.next(), Some((0, 0)));
    assert_eq!(iter.next(), Some((0, 0)));
}

#[test]
fn iter_values_truncate_toward_zero() {
    let scale = Linear::try_new(0_i32, 10, 7).unwrap();
    assert_eq!(
        collect(scale.iter()),
        vec![(0, 0), (1, 1), (3, 2), (5, 3), (6, 4), (8, 5), (10, 6)]
    );
    assert_eq!(scale.coordinate_to_domain(1), Some(2));
    let scale = Linear::try_new(0_i32, -10, 7).unwrap();
    assert_eq!(
        collect(scale.iter()),
        vec![(0, 0), (-1, 1), (-3, 2), (-5, 3), (-6, 4), (-8, 5), (-10, 6)]
    );
    assert_eq!(scale.coordinate_to_domain(1), Some(-2));
}

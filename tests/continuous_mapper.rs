use d3rs::{ScaledStep, ScaledSteps};

fn assert_last<N>(scaled_steps: ScaledSteps<N>, count: usize, last_dimension: usize, last_value: N)
where
    N: std::fmt::Debug + PartialEq,
{
    let mut counter = scaled_steps.iter();
    let mut seen: usize = 0;
    while counter.next().is_some() {
        seen += 1;
    }
    assert_eq!(seen, count);

    let mut steps = scaled_steps.iter();
    let mut last = None;
    while let Some(step) = steps.next() {
        last = Some(step);
    }
    assert_eq!(
        last,
        Some(ScaledStep {
            dimension: last_dimension,
            value: &last_value
        })
    );
}

#[test]
fn empty() {
    let scaled_steps = ScaledSteps::<i8>::new(800);
    let mut scaled_steps_iter = scaled_steps.iter();
    assert_eq!(scaled_steps_iter.next(), None);
}

#[test]
fn angles_in_degrees() {
    assert_last(ScaledSteps::new(800).discrete_range(0..360), 360, 718, 359);
}

#[test]
fn angles_in_negative_degrees() {
    assert_last(
        ScaledSteps::new(730).discrete_range(-180..181),
        361,
        720,
        180,
    );
}

#[test]
fn angles_in_negative_degrees_reversed() {
    assert_last(
        #[allow(clippy::reversed_empty_ranges)]
        ScaledSteps::new(730).discrete_range(180..-181),
        361,
        720,
        -180,
    );
}

#[test]
fn angles_in_degrees_on_small_scale() {
    assert_last(
        ScaledSteps::new(100).discrete_range(0..360),
        360 / 4,
        89,
        356,
    );
}

#[test]
fn angles_in_degrees_on_half_scale() {
    assert_last(ScaledSteps::new(180).discrete_range(0..360), 180, 179, 358);
}

#[test]
fn just_over_divisor() {
    assert_last(ScaledSteps::new(181).discrete_range(0..360), 180, 179, 358);
}

#[test]
fn just_under_divisor() {
    assert_last(ScaledSteps::new(179).discrete_range(0..360), 120, 119, 357);
}

#[test]
fn large_domain_values() {
    assert_last(
        ScaledSteps::new(600).discrete_range(0..22_000_000_000_i64),
        600,
        599,
        21_963_333_533,
    );
}

#[test]
fn steps_over_domain() {
    assert_last(
        ScaledSteps::new(600).ordered((1967..2024).rev().step_by(7).collect()),
        9,
        (600 / 10) * 9,
        1967,
    );
}

#[test]
fn steps_over_labeled_domain() {
    assert_last(
        ScaledSteps::new(600).ordered(vec!["Alpha", "Beta", "Gamma", "Delta", "Epsilon"]),
        5,
        500,
        "Epsilon",
    );
}

#[test]
fn steps_over_labeled_domain_with_too_small_dimension() {
    assert_last(
        ScaledSteps::new(5).ordered(vec!["Alpha", "Beta", "Gamma", "Delta", "Epsilon"]),
        4,
        4,
        "Delta",
    );
}

#[test]
fn steps_over_string_labeled_domain_() {
    assert_last(
        ScaledSteps::new(50).ordered(
            vec!["Alpha", "Beta", "Gamma", "Delta", "Epsilon"]
                .iter()
                .map(|s| String::from(*s))
                .collect(),
        ),
        5,
        (50 / 6) * 5,
        String::from("Epsilon"),
    );
}

#[test]
fn discrete_range_coordinates_are_evenly_spaced() {
    let steps = ScaledSteps::new(800).discrete_range(0..360);
    let mut iter = steps.iter();
    assert_eq!(iter.next(), Some(ScaledStep { value: &0, dimension: 0 }));
    assert_eq!(iter.next(), Some(ScaledStep { value: &1, dimension: 2 }));
    assert_eq!(iter.next(), Some(ScaledStep { value: &2, dimension: 4 }));
}

#[test]
fn discrete_range_rounds_domain_step_up() {
    let steps = ScaledSteps::new(179).discrete_range(0..360);
    let mut iter = steps.iter();
    assert_eq!(iter.next(), Some(ScaledStep { value: &0, dimension: 0 }));
    assert_eq!(iter.next(), Some(ScaledStep { value: &3, dimension: 1 }));
}

#[test]
fn discrete_range_of_nothing_is_empty() {
    let steps = ScaledSteps::new(800).discrete_range(5..5);
    assert_eq!(steps.iter().next(), None);
    let steps = ScaledSteps::new(0).discrete_range(0..10);
    assert_eq!(steps.iter().next(), None);
}

#[test]
fn ordered_over_zero_dimension_keeps_nothing() {
    let steps = ScaledSteps::new(0).ordered(vec![1, 2, 3]);
    assert_eq!(steps.iter().next(), None);
}

#[test]
fn ordered_labels_are_centred() {
    let steps = ScaledSteps::new(600).ordered(vec!["a", "b"]);
    let mut iter = steps.iter();
    assert_eq!(iter.next(), Some(ScaledStep { value: &"a", dimension: 200 }));
    assert_eq!(iter.next(), Some(ScaledStep { value: &"b", dimension: 400 }));
    assert_eq!(iter.next(), None);
    assert_eq!(iter.next(), None);
}

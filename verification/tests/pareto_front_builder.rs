use raphael::game::units::{Progress, Quality};
use raphael::solvers::upper_bound_solver::pareto_front::{ParetoFrontBuilder, ParetoValue};

fn sample_front_1() -> Vec<ParetoValue> {
    vec![
        ParetoValue::new(Progress { inner_value: 300 }, Quality { inner_value: 100 }),
        ParetoValue::new(Progress { inner_value: 200 }, Quality { inner_value: 200 }),
        ParetoValue::new(Progress { inner_value: 100 }, Quality { inner_value: 300 }),
    ]
}

fn value(progress: u32, quality: u32) -> ParetoValue {
    ParetoValue::new(Progress { inner_value: progress }, Quality { inner_value: quality })
}

#[test]
fn test_empty_pareto_front() {
    let mut builder = ParetoFrontBuilder::new();
    builder.start_new_front();
    builder.start_new_front();
    builder.merge_last_two_fronts();
    let front = builder.finalize();
    assert!(front.is_empty())
}

#[test]
fn test_value_shift() {
    let mut builder = ParetoFrontBuilder::new();
    builder.import_front(&sample_front_1());
    builder.shift_last_front_value(Progress { inner_value: 100 }, Quality { inner_value: 100 });
    let front = builder.finalize();
    assert_eq!(front, [value(400, 200), value(300, 300), value(200, 400)])
}

#[test]
fn importing_an_empty_front_gives_the_zero_value() {
    let mut builder = ParetoFrontBuilder::new();
    builder.import_front(&[]);
    assert_eq!(builder.finalize(), [value(0, 0)]);
}

#[test]
fn merge_keeps_only_undominated_values() {
    let mut builder = ParetoFrontBuilder::new();
    builder.import_front(&sample_front_1());
    builder.import_front(&[value(250, 150), value(200, 250), value(50, 400)]);
    builder.merge_last_two_fronts();
    assert_eq!(
        builder.finalize(),
        [value(300, 100), value(250, 150), value(200, 250), value(100, 300), value(50, 400)]
    );
}

#[test]
fn merge_of_equal_progress_keeps_the_better_quality() {
    let mut builder = ParetoFrontBuilder::new();
    builder.import_front(&[value(100, 10)]);
    builder.import_front(&[value(100, 20)]);
    builder.merge_last_two_fronts();
    assert_eq!(builder.finalize(), [value(100, 20)]);
}

#[test]
fn shift_saturates() {
    let mut builder = ParetoFrontBuilder::new();
    builder.import_front(&[value(u32::MAX - 1, 5)]);
    builder.shift_last_front_value(Progress { inner_value: 10 }, Quality { inner_value: 1 });
    assert_eq!(builder.finalize(), [value(u32::MAX, 6)]);
}

#[test]
fn clear_empties_the_builder() {
    let mut builder = ParetoFrontBuilder::new();
    builder.import_front(&sample_front_1());
    builder.clear();
    builder.start_new_front();
    assert!(builder.finalize().is_empty());
}

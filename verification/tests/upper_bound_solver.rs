use raphael::game::units::{Progress, Quality};
use raphael::game::{Action, ActionMask, Condition, Settings, State};
use raphael::solvers::upper_bound_solver::upper_bound_solver::UpperBoundSolver;

fn settings(max_cp: i16, max_durability: i8, max_progress: f32, max_quality: f32) -> Settings {
    Settings {
        max_cp,
        max_durability,
        max_progress: Progress { inner_value: (max_progress * 20.0) as u32 },
        max_quality: Quality { inner_value: (max_quality * 800.0) as u32 },
        allowed_actions: ActionMask::from_level(90, true),
    }
}

fn solve(settings: Settings, actions: &[Action]) -> f32 {
    let state = State::new(&settings).use_actions(actions, Condition::Normal, &settings);
    let result = UpperBoundSolver::new(settings).quality_upper_bound(state.as_in_progress().unwrap());
    result.inner_value as f32 / 800.0
}

#[test]
fn tests_test_01() {
    let settings = settings(553, 70, 2400.00, 20000.00);
    let result = solve(
        settings,
        &[
            Action::MuscleMemory,
            Action::PrudentTouch,
            Action::Manipulation,
            Action::Veneration,
            Action::WasteNot2,
            Action::Groundwork,
            Action::Groundwork,
            Action::Groundwork,
            Action::PreparatoryTouch,
        ],
    );
    assert_eq!(result, 3455.00); // tightness test
    assert!(result >= 3352.50); // correctness test
}

#[test]
fn upper_bound_solver_test_01() {
    let settings = settings(553, 70, 2400.00, 20000.00);
    let result = solve(
        settings,
        &[
            Action::MuscleMemory,
            Action::PrudentTouch,
            Action::Manipulation,
            Action::Veneration,
            Action::WasteNot2,
            Action::Groundwork,
            Action::Groundwork,
            Action::Groundwork,
            Action::PreparatoryTouch,
        ],
    );
    assert_eq!(result, 3455.00); // tightness test
    assert!(result >= 3352.50); // correctness test
}

#[test]
fn upper_bound_solver_test_02() {
    let settings = settings(700, 70, 2500.00, 5000.00);
    let result = solve(
        settings,
        &[
            Action::MuscleMemory,
            Action::Manipulation,
            Action::Veneration,
            Action::WasteNot,
            Action::Groundwork,
            Action::Groundwork,
        ],
    );
    assert_eq!(result, 4797.50); // tightness test
    assert!(result >= 4685.50); // correctness test
}

#[test]
fn test_03() {
    let settings = settings(617, 60, 2120.00, 5000.00);
    let result = solve(
        settings,
        &[
            Action::MuscleMemory,
            Action::Manipulation,
            Action::Veneration,
            Action::Groundwork,
            Action::CarefulSynthesis,
            Action::PrudentSynthesis,
            Action::PrudentSynthesis,
            Action::Innovation,
            Action::PrudentTouch,
            Action::PrudentTouch,
        ],
    );
    assert_eq!(result, 4103.75); // tightness test
    assert!(result >= 4016.25); // correctness test
}

#[test]
fn test_04() {
    let settings = settings(411, 60, 1990.00, 5000.00);
    let result = solve(settings, &[Action::MuscleMemory]);
    assert_eq!(result, 2335.00); // tightness test
    assert!(result >= 2005.00); // correctness test
}

#[test]
fn test_05() {
    let settings = settings(450, 60, 1970.00, 2000.00);
    let result = solve(settings, &[Action::MuscleMemory]);
    assert_eq!(result, 2000.00); // tightness test
    assert!(result >= 2000.00); // correctness test
}

#[test]
fn bound_is_zero_when_progress_cannot_be_reached() {
    let settings = settings(10, 10, 100000.00, 20000.00);
    let result = solve(settings, &[]);
    assert_eq!(result, 0.0);
}

#[test]
fn bound_is_capped_at_the_recipe_quality() {
    // test_05's inputs: the relaxed search reaches more than the recipe's 2000 quality
    let settings = settings(450, 60, 1970.00, 2000.00);
    let state = State::new(&settings)
        .use_actions(&[Action::MuscleMemory], Condition::Normal, &settings)
        .as_in_progress()
        .unwrap();
    let mut solver = UpperBoundSolver::new(settings);
    assert_eq!(solver.quality_upper_bound(state).inner_value, 2000 * 800);
    // a second query is answered from the memo with the same bound
    assert_eq!(solver.quality_upper_bound(state).inner_value, 2000 * 800);
}

#[test]
fn bound_does_not_fall_when_less_is_missing() {
    // test_04's inputs, then the same state with half the progress and 1 quality less missing
    let settings = settings(411, 60, 1990.00, 5000.00);
    let state = State::new(&settings)
        .use_actions(&[Action::MuscleMemory], Condition::Normal, &settings)
        .as_in_progress()
        .unwrap();
    let mut solver = UpperBoundSolver::new(settings);
    let bound = solver.quality_upper_bound(state).inner_value;
    assert_eq!(bound, 2335 * 800);
    let mut closer = state;
    closer.missing_progress = Progress { inner_value: state.missing_progress.inner_value / 2 };
    closer.missing_quality = Quality { inner_value: state.missing_quality.inner_value - 800 };
    assert!(solver.quality_upper_bound(closer).inner_value >= bound);
}

#[test]
fn bound_covers_a_finish_under_muscle_memory() {
    // The relaxed search keeps Muscle Memory, so the Basic Synthesis that it doubles is counted.
    let settings = Settings {
        max_cp: 31,
        max_durability: 25,
        max_progress: Progress::new(540),
        max_quality: Quality::new(1000),
        allowed_actions: ActionMask::from_level(90, true),
    };
    let before = State::new(&settings).use_actions(
        &[Action::MuscleMemory, Action::PrudentTouch],
        Condition::Normal,
        &settings,
    );
    let bound = UpperBoundSolver::new(settings).quality_upper_bound(before.as_in_progress().unwrap());
    let after = before.use_actions(&[Action::BasicSynthesis], Condition::Normal, &settings);
    match after {
        State::Completed { missing_quality } => {
            assert!(bound >= settings.max_quality.saturating_sub(missing_quality));
        },
        _ => panic!("the craft is not completed"),
    }
}

#[test]
fn bound_misses_a_finish_on_durability_below_five() {
    // The relaxed search counts durability in steps of 5 and starts without the opening combo:
    // with 14 durability, Reflect and a Basic Synthesis that breaks the item as it completes
    // reach quality that no run of the relaxed search reaches.
    let settings = Settings {
        max_cp: 6,
        max_durability: 14,
        max_progress: Progress::new(120),
        max_quality: Quality::new(1000),
        allowed_actions: ActionMask::from_level(90, true),
    };
    let start = State::new(&settings);
    let bound = UpperBoundSolver::new(settings).quality_upper_bound(start.as_in_progress().unwrap());
    assert_eq!(bound, Quality::new(0));
    let after = start.use_actions(&[Action::Reflect, Action::BasicSynthesis], Condition::Normal, &settings);
    match after {
        State::Completed { missing_quality } => {
            assert_eq!(settings.max_quality.saturating_sub(missing_quality), Quality::new(100));
        },
        _ => panic!("the craft is not completed"),
    }
}

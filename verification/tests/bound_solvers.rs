use raphael::game::units::{Progress, Quality};
use raphael::game::{Action, ActionMask, Condition, Settings, State};
use raphael::solvers::upper_bound_solver::UpperBoundSolver;
use raphael::solvers::upper_bound_solver::progress_bound_solver::ProgressBoundSolver;
use raphael::solvers::upper_bound_solver::quality_bound_solver::QualityBoundSolver;

fn settings() -> Settings {
    Settings {
        max_cp: 500,
        max_durability: 70,
        max_progress: Progress::new(2000),
        max_quality: Quality::new(10000),
        allowed_actions: ActionMask::from_level(90, true),
    }
}

#[test]
fn quality_bound_without_cp_is_zero() {
    let mut solver = QualityBoundSolver::new(settings());
    assert_eq!(solver.quality_upper_bound(0, 0).inner_value, 0);
    assert_eq!(solver.quality_upper_bound(-5, 3).inner_value, 0);
}

#[test]
fn quality_bound_with_25_cp_is_one_focused_touch() {
    // Observe + Focused Touch (7 + 18 CP) gives 150 potency, more than Prudent Touch (100)
    let mut solver = QualityBoundSolver::new(settings());
    assert_eq!(solver.quality_upper_bound(25, 0), Quality::new(150));
}

#[test]
fn quality_bound_grows_with_cp() {
    let mut solver = QualityBoundSolver::new(settings());
    let low = solver.quality_upper_bound(100, 0).inner_value;
    let high = solver.quality_upper_bound(300, 0).inner_value;
    assert!(low > 0);
    assert!(high >= low);
}

#[test]
fn progress_bound_without_cp_is_one_basic_synthesis() {
    // Basic Synthesis costs no CP: 120 potency
    let mut solver = ProgressBoundSolver::new(settings());
    assert_eq!(solver.get_progress_upper_bound(0, 0, 0), Progress::new(120));
}

#[test]
fn progress_bound_of_negative_cp_is_zero() {
    let mut solver = ProgressBoundSolver::new(settings());
    assert_eq!(solver.get_progress_upper_bound(-1, 0, 0).inner_value, 0);
}

#[test]
fn cp_lower_bound_of_one_basic_synthesis() {
    let mut solver = ProgressBoundSolver::new(settings());
    assert_eq!(solver.get_cp_lower_bound(Progress::new(120), 0, 0), 1);
    // answered again from the memo
    assert_eq!(solver.get_cp_lower_bound(Progress::new(120), 0, 0), 1);
}

#[test]
fn cp_lower_bound_grows_with_progress() {
    let mut solver = ProgressBoundSolver::new(settings());
    let small = solver.get_cp_lower_bound(Progress::new(500), 0, 0);
    let large = solver.get_cp_lower_bound(Progress::new(1500), 0, 0);
    assert!(small >= 1);
    assert!(large >= small);
    assert!(solver.get_progress_upper_bound(large, 0, 0) >= Progress::new(1500));
}

#[test]
fn split_bound_of_an_unreachable_progress_is_zero() {
    let settings = Settings {
        max_cp: 10,
        max_durability: 10,
        max_progress: Progress::new(100000),
        max_quality: Quality::new(10000),
        allowed_actions: ActionMask::from_level(90, true),
    };
    let state = State::new(&settings).as_in_progress().unwrap();
    assert_eq!(UpperBoundSolver::new(settings).quality_upper_bound(&state).inner_value, 0);
}

#[test]
fn split_bound_adds_quality_to_what_the_craft_has() {
    let settings = settings();
    let state = State::new(&settings).as_in_progress().unwrap();
    let bound = UpperBoundSolver::new(settings).quality_upper_bound(&state);
    // 500 CP and 70 durability make 2000 progress and some quality
    assert!(bound.inner_value > 0);
}

#[test]
fn cp_lower_bound_is_the_least_cp_that_reaches_the_progress() {
    let mut solver = ProgressBoundSolver::new(settings());
    let missing = Progress::new(1500);
    let cp = solver.get_cp_lower_bound(missing, 0, 0);
    assert!(solver.get_progress_upper_bound(cp, 0, 0) >= missing);
    for less in 1..cp {
        assert!(solver.get_progress_upper_bound(less, 0, 0) < missing);
    }
}

#[test]
fn progress_bound_does_not_fall_with_more_cp() {
    let mut solver = ProgressBoundSolver::new(settings());
    let mut previous = solver.get_progress_upper_bound(0, 0, 0);
    for cp in 1..200 {
        let bound = solver.get_progress_upper_bound(cp, 0, 0);
        assert!(bound >= previous);
        previous = bound;
    }
}

#[test]
fn split_bound_does_not_fall_with_more_cp_or_less_missing() {
    let settings = settings();
    let state = State::new(&settings).as_in_progress().unwrap();
    let mut solver = UpperBoundSolver::new(settings);
    let bound = solver.quality_upper_bound(&state);
    let mut better = state;
    better.cp = state.cp + 20;
    better.missing_progress = Progress::new(1000);
    better.missing_quality = Quality::new(9000);
    assert!(solver.quality_upper_bound(&better) >= bound);
}

#[test]
fn quality_bound_does_not_fall_with_more_cp() {
    let mut solver = QualityBoundSolver::new(settings());
    let mut previous = solver.quality_upper_bound(0, 2);
    for cp in 1..150 {
        let bound = solver.quality_upper_bound(cp, 2);
        assert!(bound >= previous);
        previous = bound;
    }
}

#[test]
fn split_bound_covers_a_finish_under_muscle_memory() {
    // The last Basic Synthesis runs under Muscle Memory; the bound still covers the quality.
    let settings = Settings {
        max_cp: 31,
        max_durability: 25,
        max_progress: Progress::new(540),
        max_quality: Quality::new(1000),
        allowed_actions: ActionMask::from_level(90, true),
    };
    let before = State::new(&settings).use_actions(
        &[Action::MuscleMemory, Action::PrudentTouch],
        Condition::Normal,
        &settings,
    );
    let state = before.as_in_progress().unwrap();
    assert_eq!(state.cp, 0);
    assert_eq!(state.durability, 10);
    assert_eq!(state.missing_progress, Progress::new(240));
    assert!(state.effects.muscle_memory > 0);
    let bound = UpperBoundSolver::new(settings).quality_upper_bound(&state);
    let after = before.use_actions(&[Action::BasicSynthesis], Condition::Normal, &settings);
    match after {
        State::Completed { missing_quality } => {
            let reached = settings.max_quality.saturating_sub(missing_quality);
            assert_eq!(reached, Quality::new(100));
            assert!(bound >= reached);
        },
        _ => panic!("the craft is not completed"),
    }
}

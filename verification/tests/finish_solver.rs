use raphael::game::units::{Progress, Quality};
use raphael::game::{Action, ActionMask, Condition, Settings, State};
use raphael::solvers::finish_solver::FinishSolver;

fn solve(settings: Settings, actions: &[Action]) -> Vec<Action> {
    let state = State::new(&settings).use_actions(actions, Condition::Normal, &settings);
    FinishSolver::new(settings)
        .get_finish_sequence(state.as_in_progress().unwrap())
        .unwrap()
}

fn settings(max_cp: i16, max_durability: i8, max_progress: u32) -> Settings {
    Settings {
        max_cp,
        max_durability,
        max_progress: Progress::new(max_progress),
        max_quality: Quality::new(20000),
        allowed_actions: ActionMask::from_level(90, true),
    }
}

#[test]
fn finish_solver_test_01() {
    let actions = solve(settings(100, 30, 360), &[]);
    assert_eq!(actions, [Action::Groundwork]);
}

#[test]
fn finish_solver_test_02() {
    let actions = solve(settings(100, 60, 2100), &[]);
    assert_eq!(
        actions,
        [
            Action::MuscleMemory,
            Action::Veneration,
            Action::Groundwork,
            Action::Groundwork,
            Action::PrudentSynthesis,
            Action::BasicSynthesis,
        ]
    );
}

#[test]
fn finish_sequence_completes_the_craft() {
    let settings = settings(100, 60, 2100);
    let start = State::new(&settings);
    let actions = solve(settings, &[]);
    let end = start.use_actions(&actions, Condition::Normal, &settings);
    assert!(matches!(end, State::Completed { .. }));
}

#[test]
fn can_finish_and_time_to_finish_agree() {
    let settings = settings(100, 30, 360);
    let state = State::new(&settings).as_in_progress().unwrap();
    let mut solver = FinishSolver::new(settings);
    assert!(solver.can_finish(&state));
    // Groundwork alone finishes in one step of three seconds.
    assert_eq!(solver.time_to_finish(&state), Some(3));
}

#[test]
fn too_much_progress_cannot_be_finished() {
    let settings = settings(10, 10, 100000);
    let state = State::new(&settings).as_in_progress().unwrap();
    let mut solver = FinishSolver::new(settings);
    assert!(!solver.can_finish(&state));
    assert_eq!(solver.time_to_finish(&state), None);
    assert_eq!(solver.get_finish_sequence(state), None);
}

#[test]
fn finish_sequence_takes_the_time_to_finish() {
    let settings = settings(100, 60, 2100);
    let state = State::new(&settings).as_in_progress().unwrap();
    let mut solver = FinishSolver::new(settings);
    let time = solver.time_to_finish(&state).unwrap();
    let actions = solver.get_finish_sequence(state).unwrap();
    let total: u32 = actions.iter().map(|a| a.time_cost()).sum();
    assert_eq!(total, time);
    // the six steps of finish_solver_test_02: five of three seconds and Veneration of two
    assert_eq!(time, 17);
}

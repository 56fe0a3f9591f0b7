use raphael::game::units::{Progress, Quality};
use raphael::game::{ActionMask, Condition, Settings, State};
use raphael::solvers::macro_solver::macro_solver::MacroSolver;
use raphael::solvers::upper_bound_solver::upper_bound_solver::UpperBoundSolver as FrontSolver;
use raphael::solvers::upper_bound_solver::UpperBoundSolver as SplitSolver;

fn settings(max_cp: i16, max_durability: i8, max_progress: u32, max_quality: u32) -> Settings {
    Settings {
        max_cp,
        max_durability,
        max_progress: Progress::new(max_progress),
        max_quality: Quality::new(max_quality),
        allowed_actions: ActionMask::from_level(90, true),
    }
}

#[test]
fn macro_solver_result_completes_the_craft() {
    let settings = settings(120, 40, 600, 2000);
    let start = State::new(&settings);
    let actions = MacroSolver::new(settings).solve(start).unwrap();
    assert!(!actions.is_empty());
    let end = start.use_actions(&actions, Condition::Normal, &settings);
    match end {
        State::Completed { missing_quality } => {
            // some quality was gained on the way
            assert!(missing_quality.inner_value < settings.max_quality.inner_value);
        }
        _ => panic!("the actions do not complete the craft"),
    }
}

#[test]
fn macro_solver_needs_a_craft_in_progress() {
    let settings = settings(120, 40, 600, 2000);
    let done = State::Completed { missing_quality: Quality::new(0) };
    assert_eq!(MacroSolver::new(settings).solve(done), None);
}

fn reached(settings: &Settings, start: State, actions: &[raphael::game::Action]) -> u32 {
    match start.use_actions(actions, Condition::Normal, settings) {
        State::Completed { missing_quality } => {
            settings.max_quality.inner_value.saturating_sub(missing_quality.inner_value)
        }
        _ => panic!("the actions do not complete the craft"),
    }
}

#[test]
fn macro_quality_is_within_the_quality_bounds() {
    for (cp, durability, progress) in [(120, 40, 600), (200, 60, 1000), (250, 35, 900)] {
        let settings = settings(cp, durability, progress, 20000);
        let start = State::new(&settings);
        let s = start.as_in_progress().unwrap();
        let actions = MacroSolver::new(settings).solve(start).unwrap();
        let quality = reached(&settings, start, &actions);
        let front_bound = FrontSolver::new(settings).quality_upper_bound(s).inner_value;
        let split_bound = SplitSolver::new(settings).quality_upper_bound(&s).inner_value;
        assert!(quality <= front_bound, "{} {} {}", quality, front_bound, split_bound);
        assert!(quality <= split_bound, "{} {} {}", quality, front_bound, split_bound);
    }
}

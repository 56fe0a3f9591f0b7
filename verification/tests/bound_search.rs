use raphael::game::units::{Progress, Quality};
use raphael::game::{Action, ActionMask, Condition, Settings, State};
use raphael::solvers::upper_bound_solver::upper_bound_solver::UpperBoundSolver as FrontSolver;
use raphael::solvers::upper_bound_solver::UpperBoundSolver as SplitSolver;

/// The best quality, and its rotation, of the rotations of at most `depth` actions from
/// `state` that complete the craft.
fn walk(
    settings: &Settings,
    state: State,
    all: &[Action],
    path: &mut Vec<Action>,
    depth: usize,
    best: &mut (u32, Vec<Action>),
) {
    match state {
        State::Completed { missing_quality } => {
            let q = settings.max_quality.inner_value.saturating_sub(missing_quality.inner_value);
            if q > best.0 {
                *best = (q, path.clone());
            }
        }
        State::InProgress(s) => {
            if depth == 0 {
                return;
            }
            for a in all {
                let next = s.use_action(*a, Condition::Normal, settings);
                path.push(*a);
                walk(settings, next, all, path, depth - 1, best);
                path.pop();
            }
        }
        _ => {}
    }
}

#[test]
fn exhaustive_short_rotations_stay_within_bounds() {
    let all = ActionMask::from_level(90, true).actions();
    for (cp, durability, progress) in [(60, 20, 300), (90, 25, 400), (40, 15, 250)] {
        let settings = Settings {
            max_cp: cp,
            max_durability: durability,
            max_progress: Progress::new(progress),
            max_quality: Quality::new(20000),
            allowed_actions: ActionMask::from_level(90, true),
        };
        let start = State::new(&settings);
        let s = start.as_in_progress().unwrap();
        let mut best = (0u32, Vec::new());
        walk(&settings, start, &all, &mut Vec::new(), 4, &mut best);
        let front = FrontSolver::new(settings).quality_upper_bound(s).inner_value;
        let split = SplitSolver::new(settings).quality_upper_bound(&s).inner_value;
        assert!(best.0 <= front && best.0 <= split, "{:?} {} {} {}", best.1, best.0, front, split);
    }
}

use raphael::game::units::{Progress, Quality};
use raphael::game::{Action, ActionMask, Condition, InProgress, Settings, State};
use raphael::solvers::finish_solver::FinishSolver;
use raphael::solvers::upper_bound_solver::upper_bound_solver::UpperBoundSolver as FrontSolver;
use raphael::solvers::upper_bound_solver::UpperBoundSolver as SplitSolver;

fn next(seed: &mut u64) -> u64 {
    *seed = seed.wrapping_mul(6364136223846793005).wrapping_add(1442695040888963407);
    *seed >> 33
}

#[test]
fn random_rotations_stay_within_bounds() {
    let settings = Settings {
        max_cp: 300,
        max_durability: 60,
        max_progress: Progress::new(1500),
        max_quality: Quality::new(8000),
        allowed_actions: ActionMask::from_level(90, true),
    };
    let all = ActionMask::from_level(90, true).actions();
    let mut front = FrontSolver::new(settings);
    let mut split = SplitSolver::new(settings);
    let mut finish = FinishSolver::new(settings);
    let mut seed: u64 = 7;
    for _ in 0..400 {
        let mut states: Vec<InProgress> = Vec::new();
        let mut state = State::new(&settings);
        let len = next(&mut seed) % 12;
        for _ in 0..len {
            if let State::InProgress(s) = state {
                let a = all[(next(&mut seed) as usize) % all.len()];
                let n = s.use_action(a, Condition::Normal, &settings);
                if let State::InProgress(_) = n {
                    states.push(s);
                    state = n;
                }
            }
        }
        if let State::InProgress(s) = state {
            if !finish.can_finish(&s) {
                continue;
            }
            if let Some(rest) = finish.get_finish_sequence(s) {
                if let State::Completed { missing_quality } = state.use_actions(&rest, Condition::Normal, &settings) {
                    let q = settings.max_quality.inner_value.saturating_sub(missing_quality.inner_value);
                    states.push(s);
                    for p in states.iter() {
                        // the quality still reachable from each state on the way
                        let fb = front.quality_upper_bound(*p).inner_value;
                        let sb = split.quality_upper_bound(p).inner_value;
                        assert!(q <= fb && q <= sb, "{:?} {} {} {}", p, q, fb, sb);
                    }
                }
            }
        }
    }
}

use raphael::game::units::{Progress, Quality};
use raphael::game::{Action, ActionMask, ComboAction, Condition, Effects, InProgress, Settings, State};
use raphael::game::state::from_action_sequence;

const SETTINGS: Settings = Settings {
    max_cp: 200,
    max_durability: 60,
    max_progress: Progress { inner_value: 2000 * 20 },
    max_quality: Quality { inner_value: 40000 * 800 },
    allowed_actions: ActionMask { mask: 0 },
};

#[test]
fn test_cp_cost() {
    let effects: Effects = Default::default();
    assert_eq!(25, Action::PrudentTouch.cp_cost(&effects, Condition::Good));
    assert_eq!(13, Action::PrudentTouch.cp_cost(&effects, Condition::Pliant));
}

#[test]
fn test_durability_cost() {
    let effects_default: Effects = Default::default();
    let effects_waste_not: Effects = Effects { waste_not: 1, ..Default::default() };
    assert_eq!(5, Action::PrudentSynthesis.durability_cost(&effects_default, Condition::Normal));
    assert_eq!(3, Action::PrudentSynthesis.durability_cost(&effects_default, Condition::Sturdy));
    assert_eq!(10, Action::BasicTouch.durability_cost(&effects_default, Condition::Normal));
    assert_eq!(5, Action::BasicTouch.durability_cost(&effects_default, Condition::Sturdy));
    assert_eq!(5, Action::BasicTouch.durability_cost(&effects_waste_not, Condition::Normal));
    assert_eq!(3, Action::BasicTouch.durability_cost(&effects_waste_not, Condition::Sturdy));
}

#[test]
fn test_initial_state() {
    let state = State::new(&SETTINGS);
    match state {
        State::InProgress(state) => {
            assert_eq!(state.combo, Some(ComboAction::SynthesisBegin));
            assert_eq!(state.cp, SETTINGS.max_cp);
            assert_eq!(state.durability, SETTINGS.max_durability);
            assert_eq!(state.missing_progress, SETTINGS.max_progress);
            assert_eq!(state.missing_quality, SETTINGS.max_quality);
            assert_eq!(state.effects.inner_quiet, 0);
        }
        _ => panic!(),
    }
}

#[test]
fn test_not_enough_cp() {
    let mut settings: Settings = SETTINGS;
    settings.max_cp = 10;
    let state = InProgress::new(&settings);
    let state = state.use_action(Action::Manipulation, Condition::Normal, &settings);
    assert!(matches!(state, State::Invalid));
}

#[test]
fn from_action_sequence_matches_use_actions() {
    let actions = [Action::MuscleMemory, Action::Veneration, Action::Groundwork];
    let state = from_action_sequence(&SETTINGS, &actions);
    let expected = State::new(&SETTINGS).use_actions(&actions, Condition::Normal, &SETTINGS);
    assert_eq!(state, expected);
    match state {
        State::InProgress(s) => {
            // Muscle Memory spends 6 CP, Veneration 18, Groundwork 18
            assert_eq!(s.cp, 200 - 6 - 18 - 18);
            // Muscle Memory costs 10 durability and Groundwork 20
            assert_eq!(s.durability, 30);
        }
        _ => panic!(),
    }
}

#[test]
fn display_names_agree_only_for_combo_versions() {
    assert_eq!(Action::StandardTouch.display_name(), "Standard Touch");
    assert_eq!(Action::ComboStandardTouch.display_name(), Action::StandardTouch.display_name());
    assert_eq!(Action::ComboAdvancedTouch.display_name(), "Advanced Touch");
    assert_eq!(Action::MasterMend.display_name(), "Master's Mend");
    assert_eq!(Action::WasteNot2.display_name(), "Waste Not II");
    assert_eq!(Action::ByregotsBlessing.display_name(), "Byregot's Blessing");
    assert_ne!(Action::BasicTouch.display_name(), Action::BasicSynthesis.display_name());
    assert_ne!(Action::WasteNot.display_name(), Action::WasteNot2.display_name());
    assert_ne!(Action::PrudentTouch.display_name(), Action::PrudentSynthesis.display_name());
}

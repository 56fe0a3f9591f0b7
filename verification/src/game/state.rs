use vstd::prelude::*;

use crate::game::actions::{Action, ComboAction};
use crate::game::conditions::Condition;
use crate::game::effects::Effects;
use crate::game::settings::Settings;
use crate::game::units::{Durability, Progress, Quality, CP};

verus! {

/// The state of a craft: still in progress, completed (with the quality still missing),
/// failed (with the progress still missing), or reached by an action that could not be used.
#[derive(Debug, Clone, Copy, PartialEq, Eq, Hash)]
pub enum State {
    InProgress(InProgress),
    Completed { missing_quality: Quality },
    Failed { missing_progress: Progress },
    Invalid,
}

/// A craft in progress.
#[derive(Debug, Clone, Copy, PartialEq, Eq, Hash)]
pub struct InProgress {
    pub cp: CP,
    pub durability: Durability,
    pub missing_progress: Progress,
    pub missing_quality: Quality,
    pub effects: Effects,
    pub combo: Option<ComboAction>,
}

/// `a - b`, or 0 when `b` exceeds `a`.
pub open spec fn sat_sub(a: int, b: int) -> int {
    if b <= a {
        a - b
    } else {
        0
    }
}

pub open spec fn min_int(a: int, b: int) -> int {
    if a <= b {
        a
    } else {
        b
    }
}

/// The inner quiet stacks that an action adds when it raises quality.
pub open spec fn inner_quiet_gain(action: Action) -> int {
    match action {
        Action::Reflect => 2,
        Action::PreciseTouch => 2,
        Action::PreparatoryTouch => 2,
        _ => 1,
    }
}

impl InProgress {
    /// The start of a craft: full CP and durability, nothing done, no effect, and the
    /// combo that only the opening actions need.
    pub open spec fn new_spec(settings: Settings) -> InProgress {
        InProgress {
            cp: settings.max_cp,
            durability: settings.max_durability,
            missing_progress: settings.max_progress,
            missing_quality: settings.max_quality,
            effects: Effects::none(),
            combo: Some(ComboAction::SynthesisBegin),
        }
    }

    pub fn new(settings: &Settings) -> (r: InProgress)
        ensures
            r == Self::new_spec(*settings),
    {
        InProgress {
            cp: settings.max_cp,
            durability: settings.max_durability,
            missing_progress: settings.max_progress,
            missing_quality: settings.max_quality,
            effects: Default::default(),
            combo: Some(ComboAction::SynthesisBegin),
        }
    }

    /// The action may be used: enough CP, its combo is in place, and its own condition holds.
    pub open spec fn can_use_action_spec(self, action: Action, condition: Condition) -> bool {
        &&& action.cp_cost_spec(condition) <= self.cp
        &&& (action.required_combo_spec() is Some ==> self.combo == action.required_combo_spec())
        &&& match action {
            Action::ByregotsBlessing => self.effects.inner_quiet != 0,
            Action::PrudentSynthesis | Action::PrudentTouch => self.effects.waste_not == 0,
            Action::IntensiveSynthesis | Action::PreciseTouch | Action::TricksOfTheTrade => {
                condition == Condition::Good || condition == Condition::Excellent
            },
            Action::Groundwork => self.durability >= action.durability_cost_spec(
                self.effects,
                condition,
            ),
            Action::TrainedFinesse => self.effects.inner_quiet == 10,
            _ => true,
        }
    }

    fn can_use_action(&self, action: Action, condition: Condition) -> (r: bool)
        ensures
            r == self.can_use_action_spec(action, condition),
    {
        if action.cp_cost(&self.effects, condition) > self.cp {
            return false;
        }
        let required = action.required_combo();
        match required {
            Some(combo) => {
                match self.combo {
                    Some(own) => {
                        if own != combo {
                            return false;
                        }
                    },
                    None => {
                        return false;
                    },
                }
            },
            None => {},
        }
        match action {
            Action::ByregotsBlessing => self.effects.inner_quiet != 0,
            Action::PrudentSynthesis | Action::PrudentTouch => self.effects.waste_not == 0,
            Action::IntensiveSynthesis | Action::PreciseTouch | Action::TricksOfTheTrade => {
                condition == Condition::Good || condition == Condition::Excellent
            },
            Action::Groundwork => {
                self.durability >= action.durability_cost(&self.effects, condition)
            },
            Action::TrainedFinesse => self.effects.inner_quiet == 10,
            _ => true,
        }
    }

    /// The state right after the action's costs are paid and its progress and quality are
    /// gained: Muscle Memory ends when progress rises; Great Strides ends and inner quiet
    /// grows (up to 10) when quality rises.
    pub open spec fn gain_state(self, action: Action, condition: Condition) -> InProgress {
        let progress = action.progress_increase_spec(self.effects, condition);
        let quality = action.quality_increase_spec(self.effects, condition);
        let e = self.effects;
        let e1 = if progress > 0 {
            Effects { muscle_memory: 0, ..e }
        } else {
            e
        };
        let e2 = if quality > 0 {
            Effects {
                great_strides: 0,
                inner_quiet: min_int(10, e.inner_quiet + inner_quiet_gain(action)) as u8,
                ..e1
            }
        } else {
            e1
        };
        InProgress {
            cp: (self.cp - action.cp_cost_spec(condition)) as i16,
            durability: (self.durability - action.durability_cost_spec(self.effects, condition)) as i8,
            missing_progress: if progress > 0 {
                Progress { inner_value: sat_sub(self.missing_progress.inner_value as int, progress) as u32 }
            } else {
                self.missing_progress
            },
            missing_quality: if quality > 0 {
                Quality { inner_value: sat_sub(self.missing_quality.inner_value as int, quality) as u32 }
            } else {
                self.missing_quality
            },
            effects: e2,
            combo: action.to_combo_spec(),
        }
    }

    /// Manipulation's effect before the turn ends (a fresh Manipulation does not count).
    pub open spec fn manipulation_before_tick(s: InProgress, action: Action) -> u8 {
        if action == Action::Manipulation {
            0
        } else {
            s.effects.manipulation
        }
    }

    /// Durability once Manipulation has restored 5 (up to the maximum).
    pub open spec fn durability_after_manipulation(
        s: InProgress,
        action: Action,
        settings: Settings,
    ) -> int {
        if Self::manipulation_before_tick(s, action) > 0 {
            min_int(s.durability + 5, settings.max_durability as int)
        } else {
            s.durability as int
        }
    }

    /// The end of the turn: Manipulation restores durability, the effects tick down, and the
    /// action's own effect starts (two steps longer when the condition is pliant).
    pub open spec fn end_turn(
        s: InProgress,
        action: Action,
        condition: Condition,
        settings: Settings,
    ) -> InProgress {
        let durability = Self::durability_after_manipulation(s, action, settings);
        let e = Effects {
            manipulation: Self::manipulation_before_tick(s, action),
            ..s.effects
        }.ticked();
        let bonus: int = if condition == Condition::Pliant {
            2
        } else {
            0
        };
        let base = InProgress { durability: durability as i8, effects: e, ..s };
        match action {
            Action::MuscleMemory => InProgress {
                effects: Effects { muscle_memory: (5 + bonus) as u8, ..e },
                ..base
            },
            Action::GreatStrides => InProgress {
                effects: Effects { great_strides: (3 + bonus) as u8, ..e },
                ..base
            },
            Action::Veneration => InProgress {
                effects: Effects { veneration: (4 + bonus) as u8, ..e },
                ..base
            },
            Action::Innovation => InProgress {
                effects: Effects { innovation: (4 + bonus) as u8, ..e },
                ..base
            },
            Action::WasteNot => InProgress {
                effects: Effects { waste_not: (4 + bonus) as u8, ..e },
                ..base
            },
            Action::WasteNot2 => InProgress {
                effects: Effects { waste_not: (8 + bonus) as u8, ..e },
                ..base
            },
            Action::Manipulation => InProgress {
                effects: Effects { manipulation: (8 + bonus) as u8, ..e },
                ..base
            },
            Action::MasterMend => InProgress {
                durability: min_int(settings.max_durability as int, durability + 30) as i8,
                ..base
            },
            Action::ByregotsBlessing => InProgress {
                effects: Effects { inner_quiet: 0, ..e },
                ..base
            },
            Action::TricksOfTheTrade => InProgress {
                cp: min_int(settings.max_cp as int, s.cp + 20) as i16,
                ..base
            },
            _ => base,
        }
    }

    /// The state after using `action` in `condition`.
    pub open spec fn use_action_spec(
        self,
        action: Action,
        condition: Condition,
        settings: Settings,
    ) -> State {
        if !self.can_use_action_spec(action, condition) {
            State::Invalid
        } else {
            let s = self.gain_state(action, condition);
            if s.missing_progress.inner_value == 0 {
                State::Completed { missing_quality: s.missing_quality }
            } else if s.durability <= 0 {
                State::Failed { missing_progress: s.missing_progress }
            } else {
                State::InProgress(Self::end_turn(s, action, condition, settings))
            }
        }
    }

    /// Using the action overflows no counter (the inputs on which `use_action` does not panic).
    pub open spec fn use_action_safe(
        self,
        action: Action,
        condition: Condition,
        settings: Settings,
    ) -> bool {
        self.can_use_action_spec(action, condition) ==> {
            let s = self.gain_state(action, condition);
            &&& action.quality_increase_fits(self.effects, condition)
            &&& self.durability - action.durability_cost_spec(self.effects, condition) >= i8::MIN
            &&& (action.quality_increase_spec(self.effects, condition) > 0
                ==> self.effects.inner_quiet + inner_quiet_gain(action) <= u8::MAX)
            &&& (s.missing_progress.inner_value != 0 && s.durability > 0) ==> {
                &&& (Self::manipulation_before_tick(s, action) > 0 ==> s.durability + 5
                    <= i8::MAX)
                &&& (action == Action::MasterMend ==> Self::durability_after_manipulation(
                    s,
                    action,
                    settings,
                ) + 30 <= i8::MAX)
                &&& (action == Action::TricksOfTheTrade ==> s.cp + 20 <= i16::MAX)
            }
        }
    }

    pub fn use_action(&self, action: Action, condition: Condition, settings: &Settings) -> (r:
        State)
        requires
            self.use_action_safe(action, condition, *settings),
        ensures
            r == self.use_action_spec(action, condition, *settings),
    {
        if !self.can_use_action(action, condition) {
            return State::Invalid;
        }
        let cp_cost = action.cp_cost(&self.effects, condition);
        let durability_cost = action.durability_cost(&self.effects, condition);
        let progress_increase = action.progress_increase(&self.effects, condition);
        let quality_increase = action.quality_increase(&self.effects, condition);
        let ghost gained = self.gain_state(action, condition);

        let mut new_state = *self;
        new_state.combo = action.to_combo();
        new_state.cp = new_state.cp - cp_cost;
        new_state.durability = new_state.durability - durability_cost;

        // Muscle Memory ends once progress increases
        if progress_increase.inner_value > 0 {
            new_state.missing_progress = new_state.missing_progress.saturating_sub(
                progress_increase,
            );
            new_state.effects.muscle_memory = 0;
        }
        // Great Strides ends and inner quiet grows once quality increases

        if quality_increase.inner_value > 0 {
            new_state.missing_quality = new_state.missing_quality.saturating_sub(quality_increase);
            new_state.effects.great_strides = 0;
            let gain: u8 = match action {
                Action::Reflect => 2,
                Action::PreciseTouch => 2,
                Action::PreparatoryTouch => 2,
                _ => 1,
            };
            new_state.effects.inner_quiet = new_state.effects.inner_quiet + gain;
            if new_state.effects.inner_quiet > 10 {
                new_state.effects.inner_quiet = 10;
            }
        }
        assert(new_state == gained);

        if new_state.missing_progress.inner_value == 0 {
            return State::Completed { missing_quality: new_state.missing_quality };
        }
        if new_state.durability <= 0 {
            return State::Failed { missing_progress: new_state.missing_progress };
        }

        // a fresh Manipulation does not restore durability in its own turn
        if action == Action::Manipulation {
            new_state.effects.manipulation = 0;
        }
        if new_state.effects.manipulation > 0 {
            let restored = new_state.durability + 5;
            new_state.durability = if restored < settings.max_durability {
                restored
            } else {
                settings.max_durability
            };
        }
        new_state.effects.tick_down();

        // the action's own effect
        let duration_bonus: u8 = if condition == Condition::Pliant {
            2
        } else {
            0
        };
        match action {
            Action::MuscleMemory => new_state.effects.muscle_memory = 5 + duration_bonus,
            Action::GreatStrides => new_state.effects.great_strides = 3 + duration_bonus,
            Action::Veneration => new_state.effects.veneration = 4 + duration_bonus,
            Action::Innovation => new_state.effects.innovation = 4 + duration_bonus,
            Action::WasteNot => new_state.effects.waste_not = 4 + duration_bonus,
            Action::WasteNot2 => new_state.effects.waste_not = 8 + duration_bonus,
            Action::Manipulation => new_state.effects.manipulation = 8 + duration_bonus,
            Action::MasterMend => {
                let mended = new_state.durability + 30;
                new_state.durability = if settings.max_durability < mended {
                    settings.max_durability
                } else {
                    mended
                };
            },
            Action::ByregotsBlessing => new_state.effects.inner_quiet = 0,
            Action::TricksOfTheTrade => {
                let restored = new_state.cp + 20;
                new_state.cp = if settings.max_cp < restored {
                    settings.max_cp
                } else {
                    restored
                };
            },
            _ => (),
        }
        State::InProgress(new_state)
    }

    /// A state that the rules can reach from a start under valid settings: CP and durability
    /// within their maxima, some durability left, and at most 10 inner quiet stacks.
    pub open spec fn is_valid(self, settings: Settings) -> bool {
        &&& settings.is_valid()
        &&& 0 <= self.cp <= settings.max_cp
        &&& 0 < self.durability <= settings.max_durability
        &&& self.effects.inner_quiet <= 10
    }
}

impl State {
    pub fn new(settings: &Settings) -> (r: State)
        ensures
            r == State::InProgress(InProgress::new_spec(*settings)),
    {
        State::InProgress(InProgress::new(settings))
    }

    /// The state after using `actions` one after the other: once the craft is no longer in
    /// progress, any further action gives `Invalid`.
    pub open spec fn use_actions_spec(
        self,
        actions: Seq<Action>,
        condition: Condition,
        settings: Settings,
    ) -> State
        decreases actions.len(),
    {
        if actions.len() == 0 {
            self
        } else {
            match self {
                State::InProgress(s) => s.use_action_spec(actions[0], condition, settings).use_actions_spec(
                    actions.drop_first(),
                    condition,
                    settings,
                ),
                _ => State::Invalid,
            }
        }
    }

    /// No step of `use_actions` overflows a counter.
    pub open spec fn use_actions_safe(
        self,
        actions: Seq<Action>,
        condition: Condition,
        settings: Settings,
    ) -> bool
        decreases actions.len(),
    {
        if actions.len() == 0 {
            true
        } else {
            match self {
                State::InProgress(s) => {
                    &&& s.use_action_safe(actions[0], condition, settings)
                    &&& s.use_action_spec(actions[0], condition, settings).use_actions_safe(
                        actions.drop_first(),
                        condition,
                        settings,
                    )
                },
                _ => true,
            }
        }
    }

    pub fn use_actions(self, actions: &[Action], condition: Condition, settings: &Settings) -> (r:
        State)
        requires
            self.use_actions_safe(actions@, condition, *settings),
        ensures
            r == self.use_actions_spec(actions@, condition, *settings),
    {
        let mut current_state = self;
        let mut i: usize = 0;
        assert(actions@.skip(0) =~= actions@);
        while i < actions.len()
            invariant
                i <= actions@.len(),
                current_state.use_actions_spec(actions@.skip(i as int), condition, *settings)
                    == self.use_actions_spec(actions@, condition, *settings),
                current_state.use_actions_safe(actions@.skip(i as int), condition, *settings),
            decreases actions@.len() - i,
        {
            assert(actions@.skip(i as int).drop_first() =~= actions@.skip(i + 1));
            match current_state {
                State::InProgress(in_progress) => {
                    current_state = in_progress.use_action(actions[i], condition, settings);
                },
                _ => return State::Invalid,
            }
            i = i + 1;
        }
        assert(actions@.skip(i as int) =~= Seq::<Action>::empty());
        current_state
    }

    pub open spec fn as_in_progress_spec(self) -> Option<InProgress> {
        match self {
            State::InProgress(in_progress) => Some(in_progress),
            _ => None,
        }
    }

    pub fn as_in_progress(self) -> (r: Option<InProgress>)
        ensures
            r == self.as_in_progress_spec(),
    {
        match self {
            State::InProgress(in_progress) => Some(in_progress),
            _ => None,
        }
    }

    /// A state in progress is valid; the other states are.
    pub open spec fn is_valid(self, settings: Settings) -> bool {
        match self {
            State::InProgress(s) => s.is_valid(settings),
            _ => settings.is_valid(),
        }
    }
}

/// From a valid state no action overflows a counter.
pub proof fn lemma_valid_is_safe(
    s: InProgress,
    action: Action,
    condition: Condition,
    settings: Settings,
)
    requires
        s.is_valid(settings),
    ensures
        s.use_action_safe(action, condition, settings),
{
    assert(action.quality_increase_fits(s.effects, condition)) by {
        lemma_quality_fits(action, s.effects, condition);
    }
}

/// With at most 10 inner quiet stacks the quality computation never overflows.
pub proof fn lemma_quality_fits(action: Action, effects: Effects, condition: Condition)
    requires
        effects.inner_quiet <= 10,
    ensures
        action.quality_increase_fits(effects, condition),
{
    let iq = effects.inner_quiet as int;
    let b = action.base_quality_increase_spec();
    assert(0 <= b <= 160000);
    assert(b * (2 * iq + 10) <= 160000 * 30) by (nonlinear_arith)
        requires
            0 <= b <= 160000,
            0 <= iq <= 10,
    ;
    let q0 = action.quality_before_condition(effects);
    assert(0 <= q0 <= 480000) by (nonlinear_arith)
        requires
            q0 == b || q0 == b * (2 * iq + 10) / 10,
            0 <= b <= 160000,
            0 <= iq <= 10,
    ;
    let q1 = action.quality_after_condition(effects, condition);
    assert(0 <= q1 <= 1920000);
    assert(q1 * (10 + iq) <= 1920000 * 20) by (nonlinear_arith)
        requires
            0 <= q1 <= 1920000,
            0 <= iq <= 10,
    ;
    let q2 = action.quality_after_inner_quiet(effects, condition);
    assert(0 <= q2 <= 3840000) by (nonlinear_arith)
        requires
            q2 == q1 * (10 + iq) / 10,
            0 <= q1 <= 1920000,
            0 <= iq <= 10,
    ;
}

/// Every action keeps a valid state valid.
pub proof fn lemma_use_action_keeps_valid(
    s: InProgress,
    action: Action,
    condition: Condition,
    settings: Settings,
)
    requires
        s.is_valid(settings),
    ensures
        s.use_action_spec(action, condition, settings).is_valid(settings),
{
}

/// A valid state stays safe and valid along any sequence of actions.
pub proof fn lemma_valid_use_actions(
    state: State,
    actions: Seq<Action>,
    condition: Condition,
    settings: Settings,
)
    requires
        state.is_valid(settings),
    ensures
        state.use_actions_safe(actions, condition, settings),
        state.use_actions_spec(actions, condition, settings).is_valid(settings),
    decreases actions.len(),
{
    if actions.len() > 0 {
        if let State::InProgress(s) = state {
            lemma_valid_is_safe(s, actions[0], condition, settings);
            lemma_use_action_keeps_valid(s, actions[0], condition, settings);
            lemma_valid_use_actions(
                s.use_action_spec(actions[0], condition, settings),
                actions.drop_first(),
                condition,
                settings,
            );
        }
    }
}

/// Using `a` and then `b` is using `a + b`.
pub proof fn lemma_use_actions_append(
    state: State,
    a: Seq<Action>,
    b: Seq<Action>,
    condition: Condition,
    settings: Settings,
)
    ensures
        state.use_actions_spec(a + b, condition, settings) == state.use_actions_spec(
            a,
            condition,
            settings,
        ).use_actions_spec(b, condition, settings),
    decreases a.len(),
{
    if a.len() == 0 {
        assert(a + b =~= b);
    } else {
        assert((a + b).drop_first() =~= a.drop_first() + b);
        assert((a + b)[0] == a[0]);
        match state {
            State::InProgress(s) => {
                lemma_use_actions_append(
                    s.use_action_spec(a[0], condition, settings),
                    a.drop_first(),
                    b,
                    condition,
                    settings,
                );
            },
            _ => {
                if b.len() > 0 {
                } else {
                    assert(a + b =~= a);
                }
            },
        }
    }
}

/// Once the craft is over (completed, failed or invalid), any further action gives `Invalid`.
pub proof fn lemma_finished_absorbs(
    state: State,
    actions: Seq<Action>,
    condition: Condition,
    settings: Settings,
)
    requires
        !(state is InProgress),
        actions.len() > 0,
    ensures
        state.use_actions_spec(actions, condition, settings) == State::Invalid,
{
}

/// An action is refused exactly when it cannot be used; otherwise it never adds missing
/// progress or missing quality, and it leaves the craft in progress only with progress missing.
pub proof fn lemma_use_action_outcome(
    s: InProgress,
    action: Action,
    condition: Condition,
    settings: Settings,
)
    ensures
        (s.use_action_spec(action, condition, settings) == State::Invalid) == !s.can_use_action_spec(action, condition),
        match s.use_action_spec(action, condition, settings) {
            State::InProgress(t) => {
                &&& t.missing_progress.inner_value <= s.missing_progress.inner_value
                &&& t.missing_quality.inner_value <= s.missing_quality.inner_value
                &&& t.missing_progress.inner_value > 0
            },
            State::Completed { missing_quality } => missing_quality.inner_value
                <= s.missing_quality.inner_value,
            State::Failed { missing_progress } => 0 < missing_progress.inner_value
                <= s.missing_progress.inner_value,
            State::Invalid => true,
        },
{
}

/// The state that `actions`, one after the other, reach from the start of a craft. Each
/// action must find the craft still in progress.
pub fn from_action_sequence(settings: &Settings, actions: &[Action]) -> (r: State)
    requires
        settings.is_valid(),
        forall|k: int|
            0 <= k < actions@.len() ==> State::InProgress(InProgress::new_spec(*settings)).use_actions_spec(
                #[trigger] actions@.take(k),
                Condition::Normal,
                *settings,
            ) is InProgress,
    ensures
        r == State::InProgress(InProgress::new_spec(*settings)).use_actions_spec(
            actions@,
            Condition::Normal,
            *settings,
        ),
{
    let ghost start = State::InProgress(InProgress::new_spec(*settings));
    let mut state: State = State::new(settings);
    let mut i: usize = 0;
    assert(actions@.take(0) =~= Seq::<Action>::empty());
    while i < actions.len()
        invariant
            settings.is_valid(),
            i <= actions@.len(),
            start == State::InProgress(InProgress::new_spec(*settings)),
            state == start.use_actions_spec(actions@.take(i as int), Condition::Normal, *settings),
            forall|k: int|
                0 <= k < actions@.len() ==> start.use_actions_spec(
                    #[trigger] actions@.take(k),
                    Condition::Normal,
                    *settings,
                ) is InProgress,
        decreases actions@.len() - i,
    {
        proof {
            lemma_valid_use_actions(start, actions@.take(i as int), Condition::Normal, *settings);
        }
        assert(state is InProgress);
        let current = match state {
            State::InProgress(s) => s,
            _ => {
                return state;
            },
        };
        let action = actions[i];
        proof {
            lemma_valid_is_safe(current, action, Condition::Normal, *settings);
            let one = seq![action];
            assert(actions@.take(i + 1) =~= actions@.take(i as int) + one);
            lemma_use_actions_append(start, actions@.take(i as int), one, Condition::Normal, *settings);
            assert(one[0] == action);
            assert(one.drop_first() =~= Seq::<Action>::empty());
            assert(State::InProgress(current).use_actions_spec(one, Condition::Normal, *settings)
                == current.use_action_spec(action, Condition::Normal, *settings).use_actions_spec(
                one.drop_first(),
                Condition::Normal,
                *settings,
            ));
        }
        state = current.use_action(action, Condition::Normal, settings);
        i = i + 1;
    }
    assert(actions@.take(i as int) =~= actions@);
    state
}

/// What one action does to a craft that it leaves in progress: it pays its CP (Tricks of the
/// Trade then gives back 20, up to the maximum) and its durability; a running Manipulation
/// (not one cast now) gives back 5 durability, and Master's Mend 30, each up to the maximum;
/// progress and quality rise by the action's amounts; the action's own effect starts (two
/// steps longer when pliant), Muscle Memory ends on progress and Great Strides on quality,
/// the other timed effects lose a step; inner quiet grows with quality (2 for Reflect, Precise
/// and Preparatory Touch, else 1, up to 10) and Byregot's Blessing spends it.
pub proof fn lemma_use_action_effects(s: InProgress, a: Action, c: Condition, settings: Settings)
    requires
        s.is_valid(settings),
    ensures
        s.use_action_spec(a, c, settings) matches State::InProgress(n) ==> {
            let max_d = settings.max_durability as int;
            let p = a.progress_increase_spec(s.effects, c);
            let q = a.quality_increase_spec(s.effects, c);
            let bonus: int = if c == Condition::Pliant { 2 } else { 0 };
            let e = s.effects;
            let d0 = s.durability - a.durability_cost_spec(e, c);
            let d1 = if a != Action::Manipulation && e.manipulation > 0 {
                if d0 + 5 <= max_d { d0 + 5 } else { max_d }
            } else {
                d0
            };
            let cp0 = s.cp - a.cp_cost_spec(c);
            let iq_gain: int = if a == Action::Reflect || a == Action::PreciseTouch || a
                == Action::PreparatoryTouch { 2 } else { 1 };
            &&& n.durability == if a == Action::MasterMend {
                if d1 + 30 <= max_d { d1 + 30 } else { max_d }
            } else {
                d1
            }
            &&& n.cp == if a == Action::TricksOfTheTrade {
                if cp0 + 20 <= settings.max_cp { cp0 + 20 } else { settings.max_cp as int }
            } else {
                cp0
            }
            &&& n.missing_progress.inner_value == s.missing_progress.inner_value - p
            &&& n.missing_quality.inner_value == if q <= s.missing_quality.inner_value {
                s.missing_quality.inner_value - q
            } else {
                0
            }
            &&& n.combo == a.to_combo_spec()
            &&& n.effects.inner_quiet == if a == Action::ByregotsBlessing {
                0
            } else if q > 0 {
                if e.inner_quiet + iq_gain <= 10 { e.inner_quiet + iq_gain } else { 10 }
            } else {
                e.inner_quiet as int
            }
            &&& n.effects.muscle_memory == if a == Action::MuscleMemory {
                5 + bonus
            } else if p > 0 || e.muscle_memory == 0 {
                0
            } else {
                e.muscle_memory - 1
            }
            &&& n.effects.great_strides == if a == Action::GreatStrides {
                3 + bonus
            } else if q > 0 || e.great_strides == 0 {
                0
            } else {
                e.great_strides - 1
            }
            &&& n.effects.veneration == if a == Action::Veneration {
                4 + bonus
            } else if e.veneration == 0 {
                0
            } else {
                e.veneration - 1
            }
            &&& n.effects.innovation == if a == Action::Innovation {
                4 + bonus
            } else if e.innovation == 0 {
                0
            } else {
                e.innovation - 1
            }
            &&& n.effects.waste_not == if a == Action::WasteNot {
                4 + bonus
            } else if a == Action::WasteNot2 {
                8 + bonus
            } else if e.waste_not == 0 {
                0
            } else {
                e.waste_not - 1
            }
            &&& n.effects.manipulation == if a == Action::Manipulation {
                8 + bonus
            } else if e.manipulation == 0 {
                0
            } else {
                e.manipulation - 1
            }
        },
{
}

/// Master's Mend, with the CP for it, leaves a craft that misses progress in progress: it costs its CP,
/// makes no progress or quality, and restores 30 durability (after a running Manipulation's
/// 5), up to the maximum. Without Manipulation and with room, the durability rises by 30.
pub proof fn lemma_master_mend(s: InProgress, c: Condition, settings: Settings)
    requires
        s.is_valid(settings),
        s.cp >= Action::MasterMend.cp_cost_spec(c),
        s.missing_progress.inner_value > 0,
    ensures
        s.use_action_spec(Action::MasterMend, c, settings) is InProgress,
        s.use_action_spec(Action::MasterMend, c, settings)->InProgress_0.cp == s.cp
            - Action::MasterMend.cp_cost_spec(c),
        s.use_action_spec(Action::MasterMend, c, settings)->InProgress_0.missing_progress
            == s.missing_progress,
        s.use_action_spec(Action::MasterMend, c, settings)->InProgress_0.missing_quality
            == s.missing_quality,
        s.durability <= s.use_action_spec(Action::MasterMend, c, settings)->InProgress_0.durability
            <= settings.max_durability,
        s.effects.manipulation == 0 && s.durability + 30 <= settings.max_durability ==> s.use_action_spec(
            Action::MasterMend,
            c,
            settings,
        )->InProgress_0.durability == s.durability + 30,
        s.durability + 30 >= settings.max_durability ==> s.use_action_spec(
            Action::MasterMend,
            c,
            settings,
        )->InProgress_0.durability == settings.max_durability,
{
    let a = Action::MasterMend;
    assert(a.quality_after_condition(s.effects, c) == 0);
    assert(a.quality_after_inner_quiet(s.effects, c) == 0) by (nonlinear_arith)
        requires
            a.quality_after_inner_quiet(s.effects, c) == a.quality_after_condition(s.effects, c) * (
            10 + s.effects.inner_quiet) / 10,
            a.quality_after_condition(s.effects, c) == 0,
    ;
    assert(a.quality_increase_spec(s.effects, c) == 0);
    lemma_use_action_effects(s, Action::MasterMend, c, settings);
}

/// When an action is refused, and how a usable one ends the step: it is refused exactly when
/// the CP fall short, its combo is not in place, or its own rule fails (Byregot's Blessing
/// needs inner quiet, the Prudent actions no Waste Not, Intensive Synthesis, Precise Touch and
/// Tricks of the Trade a good or excellent condition, Groundwork the durability it uses, and
/// Trained Finesse 10 stacks); a usable one completes the craft when it makes the missing
/// progress, else breaks it when the durability runs out, else leaves it in progress.
pub proof fn lemma_use_action_rules(s: InProgress, a: Action, c: Condition, settings: Settings)
    requires
        s.is_valid(settings),
    ensures
        s.use_action_spec(a, c, settings) is Invalid <==> (s.cp < a.cp_cost_spec(c) || (
        a.required_combo_spec() is Some && s.combo != a.required_combo_spec()) || (a
            == Action::ByregotsBlessing && s.effects.inner_quiet == 0) || ((a == Action::PrudentSynthesis
            || a == Action::PrudentTouch) && s.effects.waste_not > 0) || ((a
            == Action::IntensiveSynthesis || a == Action::PreciseTouch || a
            == Action::TricksOfTheTrade) && c != Condition::Good && c != Condition::Excellent) || (a
            == Action::Groundwork && s.durability < a.durability_cost_spec(s.effects, c)) || (a
            == Action::TrainedFinesse && s.effects.inner_quiet != 10)),
        !(s.use_action_spec(a, c, settings) is Invalid) ==> (s.use_action_spec(a, c, settings) is Completed
            <==> a.progress_increase_spec(s.effects, c) >= s.missing_progress.inner_value),
        !(s.use_action_spec(a, c, settings) is Invalid) && a.progress_increase_spec(s.effects, c)
            < s.missing_progress.inner_value ==> (s.use_action_spec(a, c, settings) is Failed <==> s.durability
            <= a.durability_cost_spec(s.effects, c)),
{
}

} // verus!

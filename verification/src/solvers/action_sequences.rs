use vstd::prelude::*;

use crate::game::actions::Action;

verus! {

/// The number of sequences in `upper_bound_sequence`.
pub const UPPER_BOUND_SEQUENCES: usize = 18;

/// The steps that the upper bound search tries, in order: the actions that raise only
/// progress, those that raise only quality, the one that raises both, and Waste Not
/// followed by Waste Not II.
pub open spec fn upper_bound_sequence(i: int) -> Seq<Action> {
    if i == 0 {
        seq![Action::MuscleMemory]
    } else if i == 1 {
        seq![Action::BasicSynthesis]
    } else if i == 2 {
        seq![Action::CarefulSynthesis]
    } else if i == 3 {
        seq![Action::Groundwork]
    } else if i == 4 {
        seq![Action::PrudentSynthesis]
    } else if i == 5 {
        seq![Action::Observe, Action::FocusedSynthesis]
    } else if i == 6 {
        seq![Action::Veneration]
    } else if i == 7 {
        seq![Action::Reflect]
    } else if i == 8 {
        seq![Action::PrudentTouch]
    } else if i == 9 {
        seq![Action::BasicTouch, Action::ComboStandardTouch, Action::ComboAdvancedTouch]
    } else if i == 10 {
        seq![Action::PreparatoryTouch]
    } else if i == 11 {
        seq![Action::Observe, Action::FocusedTouch]
    } else if i == 12 {
        seq![Action::TrainedFinesse]
    } else if i == 13 {
        seq![Action::ByregotsBlessing]
    } else if i == 14 {
        seq![Action::Innovation]
    } else if i == 15 {
        seq![Action::GreatStrides]
    } else if i == 16 {
        seq![Action::DelicateSynthesis]
    } else {
        seq![Action::WasteNot, Action::WasteNot2]
    }
}

/// The sequences of `upper_bound_sequence`, in order.
pub fn upper_bound_sequences() -> (r: Vec<&'static [Action]>)
    ensures
        r@.len() == UPPER_BOUND_SEQUENCES,
        forall|i: int| 0 <= i < UPPER_BOUND_SEQUENCES ==> (#[trigger] r@[i])@ == upper_bound_sequence(i),
{
    let mut r: Vec<&'static [Action]> = Vec::new();
    r.push(&[Action::MuscleMemory]);
    r.push(&[Action::BasicSynthesis]);
    r.push(&[Action::CarefulSynthesis]);
    r.push(&[Action::Groundwork]);
    r.push(&[Action::PrudentSynthesis]);
    r.push(&[Action::Observe, Action::FocusedSynthesis]);
    r.push(&[Action::Veneration]);
    r.push(&[Action::Reflect]);
    r.push(&[Action::PrudentTouch]);
    r.push(&[Action::BasicTouch, Action::ComboStandardTouch, Action::ComboAdvancedTouch]);
    r.push(&[Action::PreparatoryTouch]);
    r.push(&[Action::Observe, Action::FocusedTouch]);
    r.push(&[Action::TrainedFinesse]);
    r.push(&[Action::ByregotsBlessing]);
    r.push(&[Action::Innovation]);
    r.push(&[Action::GreatStrides]);
    r.push(&[Action::DelicateSynthesis]);
    r.push(&[Action::WasteNot, Action::WasteNot2]);
    assert forall|i: int| 0 <= i < UPPER_BOUND_SEQUENCES implies (#[trigger] r@[i])@
        == upper_bound_sequence(i) by {
        assert(r@[i]@ =~= upper_bound_sequence(i));
    }
    r
}

} // verus!

use vstd::prelude::*;

use crate::game::actions::Action;
use crate::game::conditions::Condition;
use crate::game::settings::Settings;
use crate::game::state::{lemma_use_actions_append, lemma_valid_use_actions, InProgress, State};
use crate::game::units::Quality;
use crate::solvers::finish_solver::{
    greedy_action, lemma_search_run_keeps_quality, total_time, finish_table, finishable, finishes_in_time, lemma_can_finish_iff_time, lemma_finishes_in_time_iff, lemma_table_nonempty, FinishSolver,
    ReducedState,
};
use crate::solvers::macro_solver::action_sequence::ActionSequence;
use crate::solvers::util::pareto_front::{blocks, covered_by, front_of, ParetoValue};
use crate::solvers::macro_solver::search_queue::{
    all_nodes, backed_at, explored_ordered, fronts_backed, lemma_pop_keeps_closure, lemma_pop_spec,
    node_key, node_path, node_value, pending_or_covered, queue_wf, trace_path, SearchNode,
    SearchQueue, SearchTrace,
};

verus! {

/// The best craft found: the quality it reaches and its actions.
#[derive(Debug)]
pub struct MacroResult {
    pub quality: Quality,
    pub actions: Vec<Action>,
}

/// From a valid state, a run of actions that starts with one costing CP and never uses Tricks
/// of the Trade leaves less CP, when the craft is still in progress.
proof fn lemma_run_costs_cp(s: InProgress, actions: Seq<Action>, settings: Settings, strict: bool)
    requires
        s.is_valid(settings),
        forall|k: int| 0 <= k < actions.len() ==> #[trigger] actions[k] != Action::TricksOfTheTrade,
        strict ==> actions.len() > 0 && actions[0].cp_cost_spec(Condition::Normal) >= 1,
    ensures
        State::InProgress(s).use_actions_spec(actions, Condition::Normal, settings) matches State::InProgress(n) ==> (
        if strict {
            n.cp < s.cp
        } else {
            n.cp <= s.cp
        }),
    decreases actions.len(),
{
    if actions.len() > 0 {
        let a = actions[0];
        assert(a != Action::TricksOfTheTrade);
        lemma_valid_use_actions(State::InProgress(s), seq![a], Condition::Normal, settings);
        let first = s.use_action_spec(a, Condition::Normal, settings);
        assert(State::InProgress(s).use_actions_spec(actions, Condition::Normal, settings)
            == first.use_actions_spec(actions.drop_first(), Condition::Normal, settings));
        match first {
            State::InProgress(n1) => {
                assert(n1.cp == s.cp - a.cp_cost_spec(Condition::Normal));
                crate::game::state::lemma_use_action_keeps_valid(s, a, Condition::Normal, settings);
                assert forall|k: int| 0 <= k < actions.drop_first().len() implies #[trigger] actions.drop_first()[k]
                    != Action::TricksOfTheTrade by {
                    assert(actions.drop_first()[k] == actions[k + 1]);
                }
                lemma_run_costs_cp(n1, actions.drop_first(), settings, false);
            },
            _ => {
                if actions.drop_first().len() > 0 {
                    assert(first.use_actions_spec(actions.drop_first(), Condition::Normal, settings)
                        == State::Invalid);
                } else {
                    assert(first.use_actions_spec(actions.drop_first(), Condition::Normal, settings)
                        == first);
                }
            },
        }
    }
}

/// Every step of the search costs CP.
proof fn lemma_step_costs_cp(s: InProgress, step: ActionSequence, settings: Settings)
    requires
        s.is_valid(settings),
    ensures
        State::InProgress(s).use_actions_spec(step.actions_spec(), Condition::Normal, settings) matches State::InProgress(n) ==> n.cp < s.cp,
{
    let actions = step.actions_spec();
    assert(actions.len() > 0 && actions[0].cp_cost_spec(Condition::Normal) >= 1);
    assert(forall|k: int| 0 <= k < actions.len() ==> #[trigger] actions[k] != Action::TricksOfTheTrade);
    lemma_run_costs_cp(s, actions, settings, true);
}

/// Node `n` of the search is valid and is reached from `start` along its trace.
pub open spec fn node_ok(
    explored: Seq<SearchNode>,
    start: InProgress,
    settings: Settings,
    n: SearchNode,
) -> bool {
    &&& n.state.is_valid(settings)
    &&& match n.trace {
        None => n.state == start,
        Some(t) => t.parent < explored.len() && State::InProgress(start).use_actions_spec(
            trace_path(explored, t),
            Condition::Normal,
            settings,
        ) == State::InProgress(n.state),
    }
}

/// Every explored node is valid and is reached from `start` along its path.
pub open spec fn explored_ok(explored: Seq<SearchNode>, start: InProgress, settings: Settings) -> bool {
    &&& explored_ordered(explored)
    &&& forall|k: int|
        0 <= k < explored.len() ==> (#[trigger] explored[k]).state.is_valid(settings)
            && State::InProgress(start).use_actions_spec(
            node_path(explored, k),
            Condition::Normal,
            settings,
        ) == State::InProgress(explored[k].state)
}

/// Adding a node keeps the paths of the nodes explored before.
proof fn lemma_node_path_push(explored: Seq<SearchNode>, x: SearchNode, k: int)
    requires
        0 <= k < explored.len(),
    ensures
        node_path(explored.push(x), k) == node_path(explored, k),
    decreases k,
{
    assert(explored.push(x)[k] == explored[k]);
    match explored[k].trace {
        Some(t) => {
            if t.parent < k {
                lemma_node_path_push(explored, x, t.parent as int);
            }
        },
        None => {},
    }
}

/// Actions that complete the craft from `start`.
pub open spec fn completes(start: InProgress, settings: Settings, actions: Seq<Action>) -> bool {
    State::InProgress(start).use_actions_spec(actions, Condition::Normal, settings) is Completed
}

/// The quality a craft in progress has reached: what the recipe's quality is short of what
/// is missing, 0 when more is missing.
pub open spec fn reached_quality(settings: Settings, s: InProgress) -> int {
    if s.missing_quality.inner_value <= settings.max_quality.inner_value {
        settings.max_quality.inner_value - s.missing_quality.inner_value
    } else {
        0
    }
}

/// The quality that `actions` reach from `start`, when they complete the craft (0 otherwise).
pub open spec fn completed_quality(settings: Settings, start: InProgress, actions: Seq<Action>) -> int {
    match State::InProgress(start).use_actions_spec(actions, Condition::Normal, settings) {
        State::Completed { missing_quality } => if missing_quality.inner_value
            <= settings.max_quality.inner_value {
            settings.max_quality.inner_value - missing_quality.inner_value
        } else {
            0
        },
        _ => 0,
    }
}

/// Node `n`, when a search step reached it and the craft can be finished from it in time,
/// has reached no more than `quality`.
pub open spec fn within_quality(settings: Settings, n: SearchNode, quality: int) -> bool {
    n.trace is Some && finishes_in_time(settings, n.state) ==> reached_quality(settings, n.state)
        <= quality
}

/// A property that follows from one that all nodes of the queue have holds of them too.
proof fn lemma_all_nodes_weaken(
    seed: Seq<SearchNode>,
    buckets: Seq<Seq<SearchNode>>,
    p: spec_fn(SearchNode) -> bool,
    q: spec_fn(SearchNode) -> bool,
)
    requires
        all_nodes(seed, buckets, p),
        forall|n: SearchNode| #[trigger] p(n) ==> q(n),
    ensures
        all_nodes(seed, buckets, q),
{
    assert forall|j: int| 0 <= j < seed.len() implies q(#[trigger] seed[j]) by {
        assert(p(seed[j]));
    }
    assert forall|k: int, j: int| 0 <= k < buckets.len() && 0 <= j < buckets[k].len() implies q(
        #[trigger] buckets[k][j],
    ) by {
        assert(p(buckets[k][j]));
    }
}

/// Pushing a node that has a property onto a bucket keeps the property of all nodes.
proof fn lemma_all_nodes_push(
    seed: Seq<SearchNode>,
    buckets: Seq<Seq<SearchNode>>,
    c: int,
    node: SearchNode,
    p: spec_fn(SearchNode) -> bool,
)
    requires
        all_nodes(seed, buckets, p),
        p(node),
        0 <= c < buckets.len(),
    ensures
        all_nodes(seed, buckets.update(c, buckets[c].push(node)), p),
{
    let nb = buckets.update(c, buckets[c].push(node));
    assert forall|k: int, j: int| 0 <= k < nb.len() && 0 <= j < nb[k].len() implies p(
        #[trigger] nb[k][j],
    ) by {
        if k == c && j == buckets[c].len() {
            assert(nb[k][j] == node);
        } else {
            assert(nb[k][j] == buckets[k][j]);
        }
    }
}

/// The node that `step` reaches from explored node `i`, when the search takes that step: the
/// step suits the node's state, leaves the craft in progress, and the craft can still be
/// finished from there.
pub open spec fn child_of(
    settings: Settings,
    explored: Seq<SearchNode>,
    i: int,
    step: ActionSequence,
) -> Option<SearchNode> {
    let s = explored[i].state;
    if step.should_use_spec(s, settings) {
        match State::InProgress(s).use_actions_spec(step.actions_spec(), Condition::Normal, settings) {
            State::InProgress(c) => if can_finish_spec(settings, c) {
                Some(SearchNode { state: c, trace: Some(SearchTrace { parent: i as usize, action: step }) })
            } else {
                None
            },
            _ => None,
        }
    } else {
        None
    }
}

/// The children of explored node `i` from its first `q` steps, in the order the search takes
/// the steps.
pub open spec fn step_children(settings: Settings, explored: Seq<SearchNode>, i: int, q: int) -> Seq<
    SearchNode,
>
    decreases q,
{
    if q <= 0 {
        Seq::empty()
    } else {
        let prev = step_children(settings, explored, i, q - 1);
        match child_of(settings, explored, i, ActionSequence::all_spec()[q - 1]) {
            Some(c) => prev.push(c),
            None => prev,
        }
    }
}

/// The nodes the search builds from the first `n` explored nodes, in the order it builds them.
pub open spec fn generated(settings: Settings, explored: Seq<SearchNode>, n: int) -> Seq<SearchNode>
    decreases n,
{
    if n <= 0 {
        Seq::empty()
    } else {
        generated(settings, explored, n - 1) + step_children(
            settings,
            explored,
            n - 1,
            ActionSequence::all_spec().len() as int,
        )
    }
}

/// `seq` takes the craft from `start` to full progress, each action the finishing search's
/// choice from where the craft then is.
pub open spec fn greedy_finish(settings: Settings, start: InProgress, seq: Seq<Action>) -> bool {
    &&& State::InProgress(start).use_actions_spec(seq, Condition::Normal, settings) is Completed
    &&& forall|k: int|
        0 <= k < seq.len() ==> (State::InProgress(start).use_actions_spec(
            #[trigger] seq.take(k),
            Condition::Normal,
            settings,
        ) matches State::InProgress(c) && seq[k] == greedy_action(settings, c))
}

/// The finishing search's sequence from `s` (see `greedy_finish`).
pub open spec fn greedy_seq(settings: Settings, s: InProgress) -> Seq<Action> {
    choose|f: Seq<Action>| greedy_finish(settings, s, f)
}

/// The craft that the search makes of a node: the path to it, then the finishing search's
/// sequence from it.
pub open spec fn candidate(settings: Settings, explored: Seq<SearchNode>, n: SearchNode) -> Seq<
    Action,
> {
    trace_path(explored, n.trace->0) + greedy_seq(settings, n.state)
}

/// Of two crafts of the same quality, `a` ranks before `b`: it has fewer steps, or as many
/// and takes less time.
pub open spec fn ranks_before(a: Seq<Action>, b: Seq<Action>) -> bool {
    a.len() < b.len() || (a.len() == b.len() && total_time(a) < total_time(b))
}

/// The finishing search's sequence from a state is unique.
proof fn lemma_greedy_finish_unique(settings: Settings, s: InProgress, f1: Seq<Action>, f2: Seq<Action>)
    requires
        greedy_finish(settings, s, f1),
        greedy_finish(settings, s, f2),
    ensures
        f1 == f2,
{
    let n = if f1.len() < f2.len() {
        f1.len()
    } else {
        f2.len()
    };
    lemma_greedy_prefix(settings, s, f1, f2, n as int);
    if f1.len() < f2.len() {
        assert(f2.take(f1.len() as int) == f1.take(f1.len() as int));
        assert(f1.take(f1.len() as int) =~= f1);
        assert(State::InProgress(s).use_actions_spec(f2.take(f1.len() as int), Condition::Normal, settings) matches State::InProgress(c) && f2[f1.len() as int] == greedy_action(settings, c));
    } else if f2.len() < f1.len() {
        assert(f1.take(f2.len() as int) == f2.take(f2.len() as int));
        assert(f2.take(f2.len() as int) =~= f2);
        assert(State::InProgress(s).use_actions_spec(f1.take(f2.len() as int), Condition::Normal, settings) matches State::InProgress(c) && f1[f2.len() as int] == greedy_action(settings, c));
    } else {
        assert(f1.take(n as int) =~= f1);
        assert(f2.take(n as int) =~= f2);
    }
}

/// Two finishing sequences from a state agree on their first `k` actions.
proof fn lemma_greedy_prefix(settings: Settings, s: InProgress, f1: Seq<Action>, f2: Seq<Action>, k: int)
    requires
        greedy_finish(settings, s, f1),
        greedy_finish(settings, s, f2),
        0 <= k <= f1.len(),
        k <= f2.len(),
    ensures
        f1.take(k) == f2.take(k),
    decreases k,
{
    if k > 0 {
        lemma_greedy_prefix(settings, s, f1, f2, k - 1);
        assert(State::InProgress(s).use_actions_spec(f1.take(k - 1), Condition::Normal, settings) matches State::InProgress(c) && f1[k - 1] == greedy_action(settings, c));
        assert(State::InProgress(s).use_actions_spec(f2.take(k - 1), Condition::Normal, settings) matches State::InProgress(c) && f2[k - 1] == greedy_action(settings, c));
        assert(f1.take(k) =~= f1.take(k - 1).push(f1[k - 1]));
        assert(f2.take(k) =~= f2.take(k - 1).push(f2[k - 1]));
    }
}

/// The total time of `actions`, in seconds.
fn sequence_time(actions: &Vec<Action>) -> (r: u128)
    ensures
        r == total_time(actions@),
{
    let mut t: u128 = 0;
    let mut i: usize = 0;
    while i < actions.len()
        invariant
            i <= actions@.len(),
            t == total_time(actions@.take(i as int)),
            t <= 3 * i,
        decreases actions@.len() - i,
    {
        assert(actions@.take(i + 1).drop_last() =~= actions@.take(i as int));
        assert(actions@[i as int].time_cost_spec() <= 3);
        t = t + actions[i].time_cost() as u128;
        i = i + 1;
    }
    assert(actions@.take(i as int) =~= actions@);
    t
}

/// Whether `a` ranks before `b` (see `ranks_before`).
fn ranks_before_exec(a: &Vec<Action>, b: &Vec<Action>) -> (r: bool)
    ensures
        r == ranks_before(a@, b@),
{
    if a.len() < b.len() {
        true
    } else if a.len() == b.len() {
        sequence_time(a) < sequence_time(b)
    } else {
        false
    }
}

/// What the search keeps of the nodes it built, `log`, against the craft it started with
/// (`base_quality`, `base_actions`): no node that can be finished in time reaches more than
/// the kept quality, and none of the kept quality ranks before the kept craft; the kept craft
/// is the one it started with, or that of a node of the log of the kept quality, which ranks
/// before the crafts of the nodes before it of that quality that can be finished in time.
pub open spec fn keeps_best(
    settings: Settings,
    start: InProgress,
    explored: Seq<SearchNode>,
    log: Seq<SearchNode>,
    base_quality: int,
    base_actions: Seq<Action>,
    quality: int,
    actions: Seq<Action>,
) -> bool {
    &&& quality >= base_quality
    &&& forall|k: int|
        0 <= k < log.len() && finishes_in_time(settings, (#[trigger] log[k]).state) ==> reached_quality(
            settings,
            log[k].state,
        ) <= quality
    &&& forall|k: int|
        0 <= k < log.len() && finishes_in_time(settings, (#[trigger] log[k]).state) && log[k].trace is Some
            && reached_quality(settings, log[k].state) == quality ==> !ranks_before(
            candidate(settings, explored, log[k]),
            actions,
        )
    &&& (quality == base_quality && actions == base_actions) || exists|m: int|
        0 <= m < log.len() && reached_quality(settings, (#[trigger] log[m]).state) == quality
            && quality == completed_quality(settings, start, actions) && log[m].trace is Some
            && greedy_finish(settings, log[m].state, greedy_seq(settings, log[m].state)) && candidate(
            settings,
            explored,
            log[m],
        ) == actions && (forall|k: int|
            0 <= k < m && finishes_in_time(settings, (#[trigger] log[k]).state) && log[k].trace is Some
                && reached_quality(settings, log[k].state) == quality ==> ranks_before(
                actions,
                candidate(settings, explored, log[k]),
            ))
}

/// What the search returns, of the nodes it built from the explored ones (`generated`):
/// no node that can be finished in time reaches more quality than `actions`, and the craft
/// of none that reaches as much ranks before `actions` (fewer steps, or as many in less
/// time); `actions` is the craft of a built node of that quality, which ranks before the
/// crafts of the nodes before it of that quality that can be finished in time; or, when no
/// node that can be finished in time reaches any quality, possibly the finishing search's
/// sequence from `start`.
pub open spec fn search_pick(
    settings: Settings,
    start: InProgress,
    explored: Seq<SearchNode>,
    actions: Seq<Action>,
) -> bool {
    let log = generated(settings, explored, explored.len() as int);
    let quality = completed_quality(settings, start, actions);
    &&& forall|k: int|
        0 <= k < log.len() && finishes_in_time(settings, (#[trigger] log[k]).state) ==> reached_quality(
            settings,
            log[k].state,
        ) <= quality
    &&& forall|k: int|
        0 <= k < log.len() && finishes_in_time(settings, (#[trigger] log[k]).state) && log[k].trace is Some
            && reached_quality(settings, log[k].state) == quality ==> !ranks_before(
            candidate(settings, explored, log[k]),
            actions,
        )
    &&& (exists|m: int|
        0 <= m < log.len() && reached_quality(settings, (#[trigger] log[m]).state) == quality
            && log[m].trace is Some && candidate(settings, explored, log[m]) == actions && (forall|k: int|
            0 <= k < m && finishes_in_time(settings, (#[trigger] log[k]).state) && log[k].trace is Some
                && reached_quality(settings, log[k].state) == quality ==> ranks_before(
                actions,
                candidate(settings, explored, log[k]),
            ))) || (greedy_finish(settings, start, actions) && forall|k: int|
        0 <= k < log.len() && finishes_in_time(settings, (#[trigger] log[k]).state)
            ==> reached_quality(settings, log[k].state) == 0)
}

proof fn lemma_step_children_push(
    settings: Settings,
    explored: Seq<SearchNode>,
    x: SearchNode,
    i: int,
    q: int,
)
    requires
        0 <= i < explored.len(),
    ensures
        step_children(settings, explored.push(x), i, q) == step_children(settings, explored, i, q),
    decreases q,
{
    if q > 0 {
        lemma_step_children_push(settings, explored, x, i, q - 1);
        assert(explored.push(x)[i] == explored[i]);
        assert(child_of(settings, explored.push(x), i, ActionSequence::all_spec()[q - 1]) == child_of(
            settings,
            explored,
            i,
            ActionSequence::all_spec()[q - 1],
        ));
    }
}

/// Exploring one more node leaves what the nodes before it built unchanged.
proof fn lemma_generated_push(settings: Settings, explored: Seq<SearchNode>, x: SearchNode, n: int)
    requires
        0 <= n <= explored.len(),
    ensures
        generated(settings, explored.push(x), n) == generated(settings, explored, n),
    decreases n,
{
    if n > 0 {
        lemma_generated_push(settings, explored, x, n - 1);
        lemma_step_children_push(settings, explored, x, n - 1, ActionSequence::all_spec().len() as int);
    }
}

proof fn lemma_step_children_parents(settings: Settings, explored: Seq<SearchNode>, i: int, q: int)
    requires
        0 <= i,
    ensures
        forall|k: int|
            0 <= k < step_children(settings, explored, i, q).len() ==> (#[trigger] step_children(
                settings,
                explored,
                i,
                q,
            )[k]).trace is Some && (step_children(
                settings,
                explored,
                i,
                q,
            )[k]).trace->0.parent == i as usize,
    decreases q,
{
    if q > 0 {
        lemma_step_children_parents(settings, explored, i, q - 1);
        let prev = step_children(settings, explored, i, q - 1);
        let cur = step_children(settings, explored, i, q);
        assert forall|k: int| 0 <= k < cur.len() implies (#[trigger] cur[k]).trace is Some && (cur[k]).trace->0.parent == i as usize by {
            if k < prev.len() {
                assert(cur[k] == prev[k]);
            }
        }
    }
}

/// Every node the first `n` explored nodes built records one of them as its parent.
proof fn lemma_generated_parents(settings: Settings, explored: Seq<SearchNode>, n: int)
    requires
        0 <= n <= explored.len(),
    ensures
        forall|k: int|
            0 <= k < generated(settings, explored, n).len() ==> (#[trigger] generated(
                settings,
                explored,
                n,
            )[k]).trace is Some && (generated(
                settings,
                explored,
                n,
            )[k]).trace->0.parent < n,
    decreases n,
{
    if n > 0 {
        lemma_generated_parents(settings, explored, n - 1);
        let g0 = generated(settings, explored, n - 1);
        let sc = step_children(settings, explored, n - 1, ActionSequence::all_spec().len() as int);
        lemma_step_children_parents(settings, explored, n - 1, ActionSequence::all_spec().len() as int);
        let g = generated(settings, explored, n);
        assert(g == g0 + sc);
        assert forall|k: int| 0 <= k < g.len() implies (#[trigger] g[k]).trace is Some && (g[k]).trace->0.parent < n by {
            if k < g0.len() {
                assert(g[k] == g0[k]);
            } else {
                assert(g[k] == sc[k - g0.len()]);
            }
        }
    }
}

/// Exploring one more node keeps what was kept, the paths to the built nodes unchanged.
proof fn lemma_keeps_after_pop(
    settings: Settings,
    start: InProgress,
    explored: Seq<SearchNode>,
    x: SearchNode,
    log: Seq<SearchNode>,
    base_quality: int,
    base_actions: Seq<Action>,
    quality: int,
    actions: Seq<Action>,
)
    requires
        keeps_best(settings, start, explored, log, base_quality, base_actions, quality, actions),
        forall|k: int|
            0 <= k < log.len() ==> (#[trigger] log[k]).trace is Some && (log[k]).trace->0.parent < explored.len(),
    ensures
        keeps_best(settings, start, explored.push(x), log, base_quality, base_actions, quality, actions),
{
    assert forall|k: int| 0 <= k < log.len() implies #[trigger] candidate(settings, explored.push(x), log[k])
        == candidate(settings, explored, log[k]) by {
        let t = log[k].trace->0;
        lemma_node_path_push(explored, x, t.parent as int);
        assert(trace_path(explored.push(x), t) == trace_path(explored, t));
    }
}

/// Building one more node: the kept craft stays, or becomes that of the node when the node
/// reaches more quality, or as much and its craft ranks before the kept one.
proof fn lemma_keeps_step(
    settings: Settings,
    start: InProgress,
    explored: Seq<SearchNode>,
    log: Seq<SearchNode>,
    base_quality: int,
    base_actions: Seq<Action>,
    quality: int,
    actions: Seq<Action>,
    c: SearchNode,
    new_quality: int,
    new_actions: Seq<Action>,
)
    requires
        keeps_best(settings, start, explored, log, base_quality, base_actions, quality, actions),
        (new_quality == quality && new_actions == actions && (finishes_in_time(settings, c.state)
            ==> reached_quality(settings, c.state) <= quality) && (finishes_in_time(settings, c.state)
            && c.trace is Some && reached_quality(settings, c.state) == quality ==> !ranks_before(
            candidate(settings, explored, c),
            actions,
        ))) || (new_quality == reached_quality(settings, c.state) && (new_quality > quality || (
        new_quality == quality && ranks_before(new_actions, actions))) && new_quality
            == completed_quality(settings, start, new_actions) && c.trace is Some && greedy_finish(
            settings,
            c.state,
            greedy_seq(settings, c.state),
        ) && candidate(settings, explored, c) == new_actions),
    ensures
        keeps_best(settings, start, explored, log.push(c), base_quality, base_actions, new_quality, new_actions),
{
    let l2 = log.push(c);
    assert forall|k: int| 0 <= k < log.len() implies #[trigger] l2[k] == log[k] by {}
    assert(l2[log.len() as int] == c);
    if new_quality == quality && new_actions == actions && (finishes_in_time(settings, c.state)
        ==> reached_quality(settings, c.state) <= quality) && (finishes_in_time(settings, c.state)
        && c.trace is Some && reached_quality(settings, c.state) == quality ==> !ranks_before(
        candidate(settings, explored, c),
        actions,
    )) {
        if !(quality == base_quality && actions == base_actions) {
            let m = choose|m: int|
                0 <= m < log.len() && reached_quality(settings, (#[trigger] log[m]).state) == quality
                    && quality == completed_quality(settings, start, actions) && log[m].trace is Some
                    && greedy_finish(settings, log[m].state, greedy_seq(settings, log[m].state))
                    && candidate(settings, explored, log[m]) == actions && (forall|k: int|
                    0 <= k < m && finishes_in_time(settings, (#[trigger] log[k]).state) && log[k].trace is Some
                        && reached_quality(settings, log[k].state) == quality ==> ranks_before(
                        actions,
                        candidate(settings, explored, log[k]),
                    ));
            assert(l2[m] == log[m]);
            assert forall|k: int|
                0 <= k < m && finishes_in_time(settings, (#[trigger] l2[k]).state) && l2[k].trace is Some
                    && reached_quality(settings, l2[k].state) == quality implies ranks_before(
                actions,
                candidate(settings, explored, l2[k]),
            ) by {
                assert(l2[k] == log[k]);
            }
        }
    } else {
        let m = log.len() as int;
        assert forall|k: int|
            0 <= k < m && finishes_in_time(settings, (#[trigger] l2[k]).state) && l2[k].trace is Some
                && reached_quality(settings, l2[k].state) == new_quality implies ranks_before(
            new_actions,
            candidate(settings, explored, l2[k]),
        ) by {
            assert(l2[k] == log[k]);
        }
        assert forall|k: int|
            0 <= k < l2.len() && finishes_in_time(settings, (#[trigger] l2[k]).state) && l2[k].trace is Some
                && reached_quality(settings, l2[k].state) == new_quality implies !ranks_before(
            candidate(settings, explored, l2[k]),
            new_actions,
        ) by {
            if k < log.len() {
                assert(l2[k] == log[k]);
            }
        }
    }
    assert forall|k: int|
        0 <= k < l2.len() && finishes_in_time(settings, (#[trigger] l2[k]).state) implies reached_quality(
        settings,
        l2[k].state,
    ) <= new_quality by {
        if k < log.len() {
            assert(l2[k] == log[k]);
        }
    }
    assert forall|k: int|
        0 <= k < l2.len() && finishes_in_time(settings, (#[trigger] l2[k]).state) && l2[k].trace is Some
            && reached_quality(settings, l2[k].state) == new_quality implies !ranks_before(
        candidate(settings, explored, l2[k]),
        new_actions,
    ) by {
        if k < log.len() {
            assert(l2[k] == log[k]);
        }
    }
}

/// The steps from the first `done` explored nodes, and the first `q_done` steps from node
/// `done`, reached nodes that wait in a bucket or that the fronts block.
pub open spec fn children_reached(
    settings: Settings,
    explored: Seq<SearchNode>,
    buckets: Seq<Seq<SearchNode>>,
    front: Map<u128, Seq<ParetoValue>>,
    done: int,
    q_done: int,
) -> bool {
    forall|i: int, q: int|
        0 <= i < explored.len() && 0 <= q < ActionSequence::all_spec().len() && (i < done || (i
            == done && q < q_done)) ==> (#[trigger] child_of(
            settings,
            explored,
            i,
            ActionSequence::all_spec()[q],
        ) matches Some(c) ==> pending_or_covered(buckets, front, c))
}

/// Every step is among the steps the search tries.
proof fn lemma_step_listed(step: ActionSequence)
    ensures
        exists|q: int| 0 <= q < ActionSequence::all_spec().len() && ActionSequence::all_spec()[q] == step,
{
    let all = ActionSequence::all_spec();
    let q: int = match step {
        ActionSequence::MuscleMemory => 0,
        ActionSequence::Reflect => 1,
        ActionSequence::CarefulSynthesis => 2,
        ActionSequence::Groundwork => 3,
        ActionSequence::PreparatoryTouch => 4,
        ActionSequence::PrudentTouch => 5,
        ActionSequence::TrainedFinesse => 6,
        ActionSequence::AdvancedTouchCombo => 7,
        ActionSequence::FocusedSynthesisCombo => 8,
        ActionSequence::FocusedTouchCombo => 9,
        ActionSequence::Manipulation => 10,
        ActionSequence::WasteNot => 11,
        ActionSequence::WasteNot2 => 12,
        ActionSequence::Innovation => 13,
        ActionSequence::Veneration => 14,
        ActionSequence::GreatStrides => 15,
        ActionSequence::ByregotsBlessing => 16,
    };
    assert(all[q] == step);
}

/// A pop keeps the reached children reached, with the popped node added to the explored ones.
proof fn lemma_children_after_pop(
    settings: Settings,
    explored: Seq<SearchNode>,
    x: SearchNode,
    buckets: Seq<Seq<SearchNode>>,
    front: Map<u128, Seq<ParetoValue>>,
    b2: Seq<Seq<SearchNode>>,
    f2: Map<u128, Seq<ParetoValue>>,
)
    requires
        children_reached(settings, explored, buckets, front, explored.len() as int, 0),
        forall|n: SearchNode|
            #[trigger] pending_or_covered(buckets, front, n) ==> pending_or_covered(b2, f2, n),
    ensures
        children_reached(settings, explored.push(x), b2, f2, explored.len() as int, 0),
{
    let e2 = explored.push(x);
    assert forall|i: int, q: int|
        0 <= i < e2.len() && 0 <= q < ActionSequence::all_spec().len() && (i < explored.len() || (i
            == explored.len() && q < 0)) implies (#[trigger] child_of(
            settings,
            e2,
            i,
            ActionSequence::all_spec()[q],
        ) matches Some(c) ==> pending_or_covered(b2, f2, c)) by {
        assert(e2[i] == explored[i]);
        assert(child_of(settings, e2, i, ActionSequence::all_spec()[q]) == child_of(
            settings,
            explored,
            i,
            ActionSequence::all_spec()[q],
        ));
    }
}

/// Pushing a node onto a bucket keeps every waiting or blocked node so, and the node waits.
proof fn lemma_push_pending(
    buckets: Seq<Seq<SearchNode>>,
    front: Map<u128, Seq<ParetoValue>>,
    c: int,
    node: SearchNode,
)
    requires
        0 <= c < buckets.len(),
    ensures
        forall|n: SearchNode|
            #[trigger] pending_or_covered(buckets, front, n) ==> pending_or_covered(
                buckets.update(c, buckets[c].push(node)),
                front,
                n,
            ),
        pending_or_covered(buckets.update(c, buckets[c].push(node)), front, node),
{
    let nb = buckets.update(c, buckets[c].push(node));
    assert(nb[c][buckets[c].len() as int] == node);
    assert forall|n: SearchNode| #[trigger] pending_or_covered(buckets, front, n) implies pending_or_covered(
        nb,
        front,
        n,
    ) by {
        if exists|k: int, j: int| 0 <= k < buckets.len() && 0 <= j < buckets[k].len() && #[trigger] buckets[k][j] == n {
            let (k, j) = choose|k: int, j: int| 0 <= k < buckets.len() && 0 <= j < buckets[k].len() && #[trigger] buckets[k][j] == n;
            assert(nb[k][j] == n);
        }
    }
}

/// One more step from node `done`: the children reached stay reached where buckets only grew,
/// and the new step's child, if any, waits or is blocked.
proof fn lemma_children_step(
    settings: Settings,
    explored: Seq<SearchNode>,
    buckets: Seq<Seq<SearchNode>>,
    front: Map<u128, Seq<ParetoValue>>,
    b2: Seq<Seq<SearchNode>>,
    done: int,
    q_done: int,
)
    requires
        children_reached(settings, explored, buckets, front, done, q_done),
        forall|n: SearchNode|
            #[trigger] pending_or_covered(buckets, front, n) ==> pending_or_covered(b2, front, n),
        0 <= q_done < ActionSequence::all_spec().len(),
        child_of(settings, explored, done, ActionSequence::all_spec()[q_done]) matches Some(c)
            ==> pending_or_covered(b2, front, c),
    ensures
        children_reached(settings, explored, b2, front, done, q_done + 1),
{
}

/// Popping nothing keeps the reached children reached.
proof fn lemma_children_keep(
    settings: Settings,
    explored: Seq<SearchNode>,
    buckets: Seq<Seq<SearchNode>>,
    front: Map<u128, Seq<ParetoValue>>,
    b2: Seq<Seq<SearchNode>>,
    f2: Map<u128, Seq<ParetoValue>>,
)
    requires
        children_reached(settings, explored, buckets, front, explored.len() as int, 0),
        forall|n: SearchNode|
            #[trigger] pending_or_covered(buckets, front, n) ==> pending_or_covered(b2, f2, n),
    ensures
        children_reached(settings, explored, b2, f2, explored.len() as int, 0),
{
}

/// Once every step from node `done` is taken, the children of the nodes up to it are reached.
proof fn lemma_children_next_node(
    settings: Settings,
    explored: Seq<SearchNode>,
    buckets: Seq<Seq<SearchNode>>,
    front: Map<u128, Seq<ParetoValue>>,
    done: int,
)
    requires
        children_reached(settings, explored, buckets, front, done, ActionSequence::all_spec().len() as int),
    ensures
        children_reached(settings, explored, buckets, front, done + 1, 0),
{
}

/// When the queue is empty and the fronts are backed by the explored nodes, every step from an
/// explored node reaches a node that an explored node with the same key blocks.
proof fn lemma_children_closed(
    settings: Settings,
    explored: Seq<SearchNode>,
    buckets: Seq<Seq<SearchNode>>,
    front: Map<u128, Seq<ParetoValue>>,
)
    requires
        children_reached(settings, explored, buckets, front, explored.len() as int, 0),
        buckets.len() == 0,
        fronts_backed(front, explored, Seq::<SearchNode>::empty()),
    ensures
        forall|i: int, step: ActionSequence|
            0 <= i < explored.len() ==> (#[trigger] child_of(settings, explored, i, step) matches Some(c)
                ==> exists|j: int|
                0 <= j < explored.len() && node_key(explored[j]) == node_key(c) && blocks(
                    node_value(explored[j]),
                    node_value(c),
                )),
{
    assert forall|i: int, step: ActionSequence|
        0 <= i < explored.len() && #[trigger] child_of(settings, explored, i, step) is Some implies exists|j: int|
        0 <= j < explored.len() && node_key(explored[j]) == node_key(child_of(settings, explored, i, step)->0)
            && blocks(node_value(explored[j]), node_value(child_of(settings, explored, i, step)->0)) by {
        let c = child_of(settings, explored, i, step)->0;
        lemma_step_listed(step);
        let q = choose|q: int| 0 <= q < ActionSequence::all_spec().len() && ActionSequence::all_spec()[q] == step;
        assert(child_of(settings, explored, i, ActionSequence::all_spec()[q]) matches Some(c2) ==> pending_or_covered(buckets, front, c2));
        assert(pending_or_covered(buckets, front, c));
        assert(covered_by(front_of(front, node_key(c)), node_value(c)));
        let z = choose|z: int| 0 <= z < front_of(front, node_key(c)).len() && #[trigger] blocks(
            front_of(front, node_key(c))[z],
            node_value(c),
        );
        assert(backed_at(front, explored, Seq::<SearchNode>::empty(), node_key(c), z));
        let n = choose|n: SearchNode|
            (explored.contains(n) || Seq::<SearchNode>::empty().contains(n)) && node_key(n) == node_key(c)
                && #[trigger] blocks(node_value(n), front_of(front, node_key(c))[z]);
        let j = choose|j: int| 0 <= j < explored.len() && explored[j] == n;
        assert(blocks(node_value(explored[j]), node_value(c)));
    }
}

/// The search actions can bring the craft from `state` to full progress.
pub open spec fn can_finish_spec(settings: Settings, state: InProgress) -> bool {
    finish_table(settings, ReducedState::from_state_spec(state)).last().inner_value
        >= state.missing_progress.inner_value
}

/// Searches for the craft of best quality: it explores states by decreasing CP, steps by
/// the search steps that suit each state, keeps the states from which the craft can still be
/// finished, and drops states beaten on progress and quality by another with the same key.
pub struct MacroSolver {
    settings: Settings,
    search_queue: SearchQueue,
    explored_nodes: Vec<SearchNode>,
    finish_solver: FinishSolver,
}

impl MacroSolver {
    pub closed spec fn settings_spec(&self) -> Settings {
        self.settings
    }

    /// The nodes the search has explored, in the order it explored them.
    pub closed spec fn explored_view(&self) -> Seq<SearchNode> {
        self.explored_nodes@
    }

    /// Nothing searched yet: an empty queue with a bucket for each CP value, and valid
    /// settings that allow Basic Synthesis.
    pub closed spec fn is_fresh(&self) -> bool {
        &&& self.settings.is_valid()
        &&& self.settings.max_cp < i16::MAX
        &&& self.settings.allowed_actions@.contains(Action::BasicSynthesis)
        &&& self.finish_solver.wf()
        &&& self.finish_solver.settings_spec() == self.settings
        &&& self.search_queue.seed_view() == Seq::<SearchNode>::empty()
        &&& self.search_queue.buckets_view() == Seq::new(
            (self.settings.max_cp + 1) as nat,
            |k: int| Seq::<SearchNode>::empty(),
        )
        &&& self.explored_nodes@ == Seq::<SearchNode>::empty()
        &&& self.search_queue.front_view() == Map::<u128, Seq<ParetoValue>>::empty()
    }

    pub fn new(settings: Settings) -> (r: MacroSolver)
        requires
            settings.is_valid(),
            settings.max_cp < i16::MAX,
            settings.allowed_actions@.contains(Action::BasicSynthesis),
        ensures
            r.is_fresh(),
            r.settings_spec() == settings,
    {
        MacroSolver {
            settings,
            search_queue: SearchQueue::new(settings),
            explored_nodes: Vec::new(),
            finish_solver: FinishSolver::new(settings),
        }
    }

    /// Searches from `state` for the craft of best quality. `None` when the craft is no
    /// longer in progress or cannot be finished; else actions that complete the craft: the
    /// best found, or a plain finishing sequence when no search step raised the quality.
    /// A craft that the search actions can finish, or that misses no progress, gets actions,
    /// and they reach at least the quality of every state the search explored from which the
    /// craft can be finished. The explored states are closed
    /// under the search steps: every step that suits an explored state and leaves a craft that
    /// can be finished reaches a state that an explored state with the same key equals or
    /// beats on both progress and quality. Of the crafts found, it keeps one of the highest
    /// quality, and among those the one with the fewest steps, then the least time, the first
    /// found on a full tie (`search_pick`).
    pub fn solve(&mut self, state: State) -> (r: Option<Vec<Action>>)
        requires
            old(self).is_fresh(),
            state.is_valid(old(self).settings_spec()),
        ensures
            r is Some ==> state is InProgress,
            (state matches State::InProgress(s) && !can_finish_spec(old(self).settings_spec(), s))
                ==> r is None,
            (state matches State::InProgress(s) && finishable(old(self).settings_spec(), s))
                ==> r is Some,
            (state matches State::InProgress(s) && s.missing_progress.inner_value == 0) ==> r is Some,
            r matches Some(actions) ==> completes(
                state->InProgress_0,
                old(self).settings_spec(),
                actions@,
            ),
            r is Some ==> final(self).explored_view().len() >= 1 && final(self).explored_view()[0]
                == (SearchNode { state: state->InProgress_0, trace: None }) && explored_ok(
                final(self).explored_view(),
                state->InProgress_0,
                old(self).settings_spec(),
            ),
            r is Some ==> forall|i: int, step: ActionSequence|
                0 <= i < final(self).explored_view().len() ==> (#[trigger] child_of(
                    old(self).settings_spec(),
                    final(self).explored_view(),
                    i,
                    step,
                ) matches Some(c) ==> exists|j: int|
                    0 <= j < final(self).explored_view().len() && node_key(final(self).explored_view()[j])
                        == node_key(c) && blocks(node_value(final(self).explored_view()[j]), node_value(c))),
            r matches Some(actions) ==> forall|k: int|
                0 < k < final(self).explored_view().len()
                    ==> (#[trigger] final(self).explored_view()[k]).trace is Some
                    && within_quality(
                    old(self).settings_spec(),
                    final(self).explored_view()[k],
                    completed_quality(old(self).settings_spec(), state->InProgress_0, actions@),
                ),
            r matches Some(actions) ==> search_pick(
                old(self).settings_spec(),
                state->InProgress_0,
                final(self).explored_view(),
                actions@,
            ),
    {
        match state {
            State::InProgress(state) => {
                proof {
                    lemma_table_nonempty(self.settings, ReducedState::from_state_spec(state));
                    lemma_can_finish_iff_time(self.settings, state);
                    lemma_finishes_in_time_iff(self.settings, state);
                }
                if !self.finish_solver.can_finish(&state) {
                    return None;
                }
                proof {
                    lemma_table_nonempty(self.settings, ReducedState::from_state_spec(state));
                }
                let finish = match self.finish_solver.get_finish_sequence(state) {
                    Some(finish) => finish,
                    None => {
                        return None;
                    },
                };
                let best_result = MacroResult { quality: Quality::new(0), actions: finish };
                assert(completed_quality(self.settings, state, best_result.actions@) >= 0);
                let ghost finish_seq = best_result.actions@;
                assert(greedy_finish(self.settings, state, finish_seq));
                let ghost settings = self.settings;
                let result = self.do_solve(state, best_result);
                proof {
                    let explored = self.explored_nodes@;
                    let log = generated(settings, explored, explored.len() as int);
                    let q = result.quality.inner_value as int;
                    let cq = completed_quality(settings, state, result.actions@);
                    assert forall|k: int|
                        0 <= k < log.len() && finishes_in_time(settings, (#[trigger] log[k]).state)
                            implies reached_quality(settings, log[k].state) <= cq by {}
                    if q == 0 && result.actions@ == finish_seq {
                        assert forall|k: int|
                            0 <= k < log.len() && finishes_in_time(settings, (#[trigger] log[k]).state)
                                && log[k].trace is Some && reached_quality(settings, log[k].state) == cq
                                implies !ranks_before(candidate(settings, explored, log[k]), result.actions@) by {
                            assert(reached_quality(settings, log[k].state) <= q);
                        }
                    } else {
                        assert(q == cq);
                    }
                }
                Some(result.actions)
            },
            _ => None,
        }
    }

    /// Explores from `state` and returns the best of `best_result` and the crafts found
    /// (those that reach more quality).
    #[verifier::rlimit(80)]
    fn do_solve(&mut self, state: InProgress, best_result: MacroResult) -> (r: MacroResult)
        requires
            old(self).settings.is_valid(),
            old(self).settings.allowed_actions@.contains(Action::BasicSynthesis),
            old(self).finish_solver.wf(),
            old(self).finish_solver.settings_spec() == old(self).settings,
            old(self).search_queue.seed_view() == Seq::<SearchNode>::empty(),
            queue_wf(old(self).search_queue.seed_view(), old(self).search_queue.buckets_view()),
            forall|k: int| 0 <= k < old(self).search_queue.buckets_view().len() ==> (#[trigger] old(self).search_queue.buckets_view()[k]).len() == 0,
            old(self).explored_nodes@ == Seq::<SearchNode>::empty(),
            old(self).search_queue.front_view() == Map::<u128, Seq<ParetoValue>>::empty(),
            state.is_valid(old(self).settings),
            state.cp < old(self).search_queue.buckets_view().len(),
            completes(state, old(self).settings, best_result.actions@),
            best_result.quality.inner_value <= completed_quality(
                old(self).settings,
                state,
                best_result.actions@,
            ),
        ensures
            completes(state, old(self).settings, r.actions@),
            r.quality.inner_value <= completed_quality(old(self).settings, state, r.actions@),
            r.quality.inner_value >= best_result.quality.inner_value,
            forall|i: int, step: ActionSequence|
                0 <= i < final(self).explored_nodes@.len() ==> (#[trigger] child_of(
                    old(self).settings,
                    final(self).explored_nodes@,
                    i,
                    step,
                ) matches Some(c) ==> exists|j: int|
                    0 <= j < final(self).explored_nodes@.len() && node_key(
                        final(self).explored_nodes@[j],
                    ) == node_key(c) && blocks(node_value(final(self).explored_nodes@[j]), node_value(c))),
            final(self).explored_nodes@.len() >= 1,
            final(self).explored_nodes@[0] == (SearchNode { state, trace: None }),
            explored_ok(final(self).explored_nodes@, state, old(self).settings),
            forall|k: int|
                0 < k < final(self).explored_nodes@.len()
                    ==> (#[trigger] final(self).explored_nodes@[k]).trace is Some
                    && within_quality(
                    old(self).settings,
                    final(self).explored_nodes@[k],
                    r.quality.inner_value as int,
                ),
            keeps_best(
                old(self).settings,
                state,
                final(self).explored_nodes@,
                generated(
                    old(self).settings,
                    final(self).explored_nodes@,
                    final(self).explored_nodes@.len() as int,
                ),
                best_result.quality.inner_value as int,
                best_result.actions@,
                r.quality.inner_value as int,
                r.actions@,
            ),
    {
        let ghost settings = self.settings;
        let ghost start = state;
        let ghost start_node = SearchNode { state, trace: None };
        self.search_queue.push_seed(SearchNode { state, trace: None });
        let mut result = best_result;
        assert(generated(settings, self.explored_nodes@, 0) =~= Seq::<SearchNode>::empty());
        let sequences = ActionSequence::all();
        proof {
            let p = |n: SearchNode| node_ok(self.explored_nodes@, start, settings, n);
            assert(all_nodes(self.search_queue.seed_view(), self.search_queue.buckets_view(), p));
            let pq = |n: SearchNode| within_quality(settings, n, result.quality.inner_value as int);
            assert(all_nodes(self.search_queue.seed_view(), self.search_queue.buckets_view(), pq));
            assert(self.search_queue.seed_view() =~= seq![start_node]);
        }
        loop
            invariant
                self.settings == settings,
                settings.is_valid(),
                settings.allowed_actions@.contains(Action::BasicSynthesis),
                self.finish_solver.wf(),
                self.finish_solver.settings_spec() == settings,
                sequences@ == ActionSequence::all_spec(),
                start.is_valid(settings),
                explored_ok(self.explored_nodes@, start, settings),
                queue_wf(self.search_queue.seed_view(), self.search_queue.buckets_view()),
                all_nodes(
                    self.search_queue.seed_view(),
                    self.search_queue.buckets_view(),
                    |n: SearchNode| node_ok(self.explored_nodes@, start, settings, n),
                ),
                completes(start, settings, result.actions@),
                result.quality.inner_value <= completed_quality(settings, start, result.actions@),
                result.quality.inner_value >= best_result.quality.inner_value,
                start_node == (SearchNode { state: start, trace: None }),
                self.explored_nodes@.len() == 0 ==> self.search_queue.seed_view() == seq![start_node]
                    && forall|k: int| 0 <= k < self.search_queue.buckets_view().len()
                        ==> (#[trigger] self.search_queue.buckets_view()[k]).len() == 0,
                self.explored_nodes@.len() > 0 ==> self.explored_nodes@[0] == start_node,
                self.explored_nodes@.len() > 0 ==> all_nodes(
                    self.search_queue.seed_view(),
                    self.search_queue.buckets_view(),
                    |n: SearchNode| n.trace is Some,
                ),
                all_nodes(
                    self.search_queue.seed_view(),
                    self.search_queue.buckets_view(),
                    |n: SearchNode| within_quality(settings, n, result.quality.inner_value as int),
                ),
                forall|k: int|
                    0 < k < self.explored_nodes@.len() ==> (#[trigger] self.explored_nodes@[k]).trace is Some
                        && within_quality(settings, self.explored_nodes@[k], result.quality.inner_value as int),
                fronts_backed(
                    self.search_queue.front_view(),
                    self.explored_nodes@,
                    self.search_queue.seed_view(),
                ),
                keeps_best(
                    settings,
                    start,
                    self.explored_nodes@,
                    generated(settings, self.explored_nodes@, self.explored_nodes@.len() as int),
                    best_result.quality.inner_value as int,
                    best_result.actions@,
                    result.quality.inner_value as int,
                    result.actions@,
                ),
                children_reached(
                    settings,
                    self.explored_nodes@,
                    self.search_queue.buckets_view(),
                    self.search_queue.front_view(),
                    self.explored_nodes@.len() as int,
                    0,
                ),
            ensures
                self.settings == settings,
                keeps_best(
                    settings,
                    start,
                    self.explored_nodes@,
                    generated(settings, self.explored_nodes@, self.explored_nodes@.len() as int),
                    best_result.quality.inner_value as int,
                    best_result.actions@,
                    result.quality.inner_value as int,
                    result.actions@,
                ),
                forall|i: int, step: ActionSequence|
                    0 <= i < self.explored_nodes@.len() ==> (#[trigger] child_of(
                        settings,
                        self.explored_nodes@,
                        i,
                        step,
                    ) matches Some(c) ==> exists|j: int|
                        0 <= j < self.explored_nodes@.len() && node_key(self.explored_nodes@[j]) == node_key(c)
                            && blocks(node_value(self.explored_nodes@[j]), node_value(c))),
                completes(start, settings, result.actions@),
                result.quality.inner_value <= completed_quality(settings, start, result.actions@),
                result.quality.inner_value >= best_result.quality.inner_value,
                self.explored_nodes@.len() > 0,
                self.explored_nodes@[0] == start_node,
                explored_ok(self.explored_nodes@, start, settings),
                forall|k: int|
                    0 < k < self.explored_nodes@.len() ==> (#[trigger] self.explored_nodes@[k]).trace is Some
                        && within_quality(settings, self.explored_nodes@[k], result.quality.inner_value as int),
            decreases self.search_queue.buckets_view().len(), self.search_queue.seed_view().len(),
        {
            let ghost old_explored = self.explored_nodes@;
            let ghost old_seed = self.search_queue.seed_view();
            let ghost old_buckets = self.search_queue.buckets_view();
            let ghost old_front = self.search_queue.front_view();
            let ghost rq = result.quality.inner_value as int;
            proof {
                lemma_pop_keeps_closure(old_explored, old_seed, old_buckets, old_front);
                lemma_pop_spec(
                    self.search_queue.seed_view(),
                    self.search_queue.buckets_view(),
                    self.search_queue.front_view(),
                    |n: SearchNode| node_ok(old_explored, start, settings, n),
                );
                lemma_pop_spec(
                    self.search_queue.seed_view(),
                    self.search_queue.buckets_view(),
                    self.search_queue.front_view(),
                    |n: SearchNode| within_quality(settings, n, rq),
                );
                if old_explored.len() > 0 {
                    lemma_pop_spec(
                        self.search_queue.seed_view(),
                        self.search_queue.buckets_view(),
                        self.search_queue.front_view(),
                        |n: SearchNode| n.trace is Some,
                    );
                } else {
                    assert(old_seed.last() == start_node);
                    assert(old_seed.drop_last() =~= Seq::<SearchNode>::empty());
                }
            }
            let current_node = match self.search_queue.pop() {
                Some(node) => node,
                None => {
                    assert(old_explored.len() > 0);
                    proof {
                        assert(self.search_queue.seed_view() =~= Seq::<SearchNode>::empty());
                        lemma_children_keep(
                            settings,
                            old_explored,
                            old_buckets,
                            old_front,
                            self.search_queue.buckets_view(),
                            self.search_queue.front_view(),
                        );
                        lemma_children_closed(
                            settings,
                            old_explored,
                            self.search_queue.buckets_view(),
                            self.search_queue.front_view(),
                        );
                    }
                    break ;
                },
            };
            let ghost buckets_left = self.search_queue.buckets_view().len();
            let ghost seed_left = self.search_queue.seed_view();
            let idx = self.explored_nodes.len();
            self.explored_nodes.push(current_node);
            let ghost front_left = self.search_queue.front_view();
            proof {
                lemma_generated_parents(settings, old_explored, old_explored.len() as int);
                lemma_keeps_after_pop(
                    settings,
                    start,
                    old_explored,
                    current_node,
                    generated(settings, old_explored, old_explored.len() as int),
                    best_result.quality.inner_value as int,
                    best_result.actions@,
                    result.quality.inner_value as int,
                    result.actions@,
                );
                lemma_generated_push(settings, old_explored, current_node, old_explored.len() as int);
                assert(generated(settings, self.explored_nodes@, idx as int) + step_children(
                    settings,
                    self.explored_nodes@,
                    idx as int,
                    0,
                ) =~= generated(settings, old_explored, old_explored.len() as int));
                lemma_children_after_pop(
                    settings,
                    old_explored,
                    current_node,
                    old_buckets,
                    old_front,
                    self.search_queue.buckets_view(),
                    self.search_queue.front_view(),
                );
                assert(self.explored_nodes@ == old_explored.push(current_node));
                assert forall|k: int| 0 <= k < old_explored.len() implies node_path(
                    self.explored_nodes@,
                    k,
                ) == node_path(old_explored, k) by {
                    lemma_node_path_push(old_explored, current_node, k);
                }
                match current_node.trace {
                    Some(t) => {
                        assert(node_path(self.explored_nodes@, idx as int) == node_path(
                            self.explored_nodes@,
                            t.parent as int,
                        ) + t.action.actions_spec());
                    },
                    None => {
                        assert(node_path(self.explored_nodes@, idx as int) =~= Seq::<Action>::empty());
                    },
                }
                assert(explored_ok(self.explored_nodes@, start, settings));
                assert forall|n: SearchNode| node_ok(old_explored, start, settings, n) implies node_ok(
                    self.explored_nodes@,
                    start,
                    settings,
                    n,
                ) by {
                    if let Some(t) = n.trace {
                        lemma_node_path_push(old_explored, current_node, t.parent as int);
                    }
                }
                if old_explored.len() == 0 {
                    assert(current_node == start_node);
                    assert(self.search_queue.seed_view() =~= Seq::<SearchNode>::empty());
                    assert(all_nodes(
                        self.search_queue.seed_view(),
                        self.search_queue.buckets_view(),
                        |n: SearchNode| n.trace is Some,
                    ));
                } else {
                    assert(self.explored_nodes@[0] == old_explored[0]);
                }
                assert forall|k: int| 0 < k < self.explored_nodes@.len() implies (#[trigger] self.explored_nodes@[k]).trace is Some
                    && within_quality(settings, self.explored_nodes@[k], rq) by {
                    if k < old_explored.len() {
                        assert(self.explored_nodes@[k] == old_explored[k]);
                    } else {
                        assert(self.explored_nodes@[k] == current_node);
                    }
                }
            }
            let mut i: usize = 0;
            while i < sequences.len()
                invariant
                    self.settings == settings,
                    settings.is_valid(),
                    settings.allowed_actions@.contains(Action::BasicSynthesis),
                    self.finish_solver.wf(),
                    self.finish_solver.settings_spec() == settings,
                    sequences@ == ActionSequence::all_spec(),
                    start.is_valid(settings),
                    idx + 1 == self.explored_nodes@.len(),
                    self.explored_nodes@[idx as int] == current_node,
                    current_node.state.is_valid(settings),
                    0 <= current_node.state.cp <= self.search_queue.buckets_view().len(),
                    State::InProgress(start).use_actions_spec(
                        node_path(self.explored_nodes@, idx as int),
                        Condition::Normal,
                        settings,
                    ) == State::InProgress(current_node.state),
                    explored_ok(self.explored_nodes@, start, settings),
                    queue_wf(self.search_queue.seed_view(), self.search_queue.buckets_view()),
                    all_nodes(
                        self.search_queue.seed_view(),
                        self.search_queue.buckets_view(),
                        |n: SearchNode| node_ok(self.explored_nodes@, start, settings, n),
                    ),
                    completes(start, settings, result.actions@),
                    result.quality.inner_value <= completed_quality(settings, start, result.actions@),
                    result.quality.inner_value >= best_result.quality.inner_value,
                    start_node == (SearchNode { state: start, trace: None }),
                    self.explored_nodes@[0] == start_node,
                    all_nodes(
                        self.search_queue.seed_view(),
                        self.search_queue.buckets_view(),
                        |n: SearchNode| n.trace is Some,
                    ),
                    all_nodes(
                        self.search_queue.seed_view(),
                        self.search_queue.buckets_view(),
                        |n: SearchNode| within_quality(settings, n, result.quality.inner_value as int),
                    ),
                    forall|k: int|
                        0 < k < self.explored_nodes@.len() ==> (#[trigger] self.explored_nodes@[k]).trace is Some
                            && within_quality(settings, self.explored_nodes@[k], result.quality.inner_value as int),
                    self.search_queue.buckets_view().len() == buckets_left,
                    self.search_queue.seed_view() == seed_left,
                    self.search_queue.front_view() == front_left,
                    i <= sequences@.len(),
                    fronts_backed(front_left, self.explored_nodes@, seed_left),
                    keeps_best(
                        settings,
                        start,
                        self.explored_nodes@,
                        generated(settings, self.explored_nodes@, idx as int) + step_children(
                            settings,
                            self.explored_nodes@,
                            idx as int,
                            i as int,
                        ),
                        best_result.quality.inner_value as int,
                        best_result.actions@,
                        result.quality.inner_value as int,
                        result.actions@,
                    ),
                    children_reached(
                        settings,
                        self.explored_nodes@,
                        self.search_queue.buckets_view(),
                        front_left,
                        idx as int,
                        i as int,
                    ),
                decreases sequences@.len() - i,
            {
                let sequence = sequences[i];
                let ghost b0 = self.search_queue.buckets_view();
                let ghost log0 = generated(settings, self.explored_nodes@, idx as int) + step_children(
                    settings,
                    self.explored_nodes@,
                    idx as int,
                    i as int,
                );
                let ghost q0 = result.quality.inner_value as int;
                let ghost a0 = result.actions@;
                let ghost mut fin: Seq<Action> = Seq::empty();
                assert(sequence == ActionSequence::all_spec()[i as int]);
                if sequence.should_use(&current_node.state, &self.settings) {
                    proof {
                        lemma_valid_use_actions(
                            State::InProgress(current_node.state),
                            sequence.actions_spec(),
                            Condition::Normal,
                            settings,
                        );
                        lemma_step_costs_cp(current_node.state, sequence, settings);
                    }
                    let use_action = sequence.apply(State::InProgress(current_node.state), &self.settings);
                    match use_action {
                        State::InProgress(state) => {
                            proof {
                                lemma_table_nonempty(settings, ReducedState::from_state_spec(state));
                            }
                            if self.finish_solver.can_finish(&state) {
                                let trace = SearchTrace::new(idx, sequence);
                                proof {
                                    lemma_use_actions_append(
                                        State::InProgress(start),
                                        node_path(self.explored_nodes@, idx as int),
                                        sequence.actions_spec(),
                                        Condition::Normal,
                                        settings,
                                    );
                                }
                                let quality = self.settings.max_quality.saturating_sub(state.missing_quality);
                                let ghost rq0 = result.quality.inner_value as int;
                                let ghost node_spec = SearchNode { state, trace: Some(trace) };
                                assert(quality.inner_value == reached_quality(settings, state));
                                if quality.inner_value >= result.quality.inner_value {
                                    proof {
                                        lemma_table_nonempty(settings, ReducedState::from_state_spec(state));
                                    }
                                    match self.finish_solver.get_finish_sequence(state) {
                                        Some(finish) => {
                                            proof {
                                                fin = finish@;
                                                assert(greedy_finish(settings, state, fin));
                                                lemma_greedy_finish_unique(
                                                    settings,
                                                    state,
                                                    fin,
                                                    greedy_seq(settings, state),
                                                );
                                            }
                                            let mut actions = trace.actions(&self.explored_nodes);
                                            let ghost head = actions@;
                                            let mut k: usize = 0;
                                            while k < finish.len()
                                                invariant
                                                    k <= finish@.len(),
                                                    actions@ == head + finish@.take(k as int),
                                                decreases finish@.len() - k,
                                            {
                                                actions.push(finish[k]);
                                                k = k + 1;
                                                assert(actions@ =~= head + finish@.take(k as int));
                                            }
                                            proof {
                                                assert(finish@.take(k as int) =~= finish@);
                                                lemma_use_actions_append(
                                                    State::InProgress(start),
                                                    head,
                                                    finish@,
                                                    Condition::Normal,
                                                    settings,
                                                );
                                                lemma_search_run_keeps_quality(state, finish@, settings);
                                                assert(candidate(settings, self.explored_nodes@, node_spec) == actions@);
                                            }
                                            if quality.inner_value > result.quality.inner_value
                                                || ranks_before_exec(&actions, &result.actions) {
                                                result = MacroResult { quality, actions };
                                            }
                                        },
                                        None => {},
                                    }
                                }
                                proof {
                                    let rq1 = result.quality.inner_value as int;
                                    assert(rq0 <= rq1);
                                    assert(within_quality(settings, node_spec, rq1));
                                    lemma_all_nodes_weaken(
                                        self.search_queue.seed_view(),
                                        self.search_queue.buckets_view(),
                                        |n: SearchNode| within_quality(settings, n, rq0),
                                        |n: SearchNode| within_quality(settings, n, rq1),
                                    );
                                    assert forall|k: int| 0 < k < self.explored_nodes@.len() implies (#[trigger] self.explored_nodes@[k]).trace is Some
                                        && within_quality(settings, self.explored_nodes@[k], rq1) by {
                                        assert(within_quality(settings, self.explored_nodes@[k], rq0));
                                    }
                                }
                                let node = SearchNode { state, trace: Some(trace) };
                                let ghost old_seed = self.search_queue.seed_view();
                                let ghost old_buckets = self.search_queue.buckets_view();
                                self.search_queue.push(node);
                                proof {
                                    lemma_all_nodes_push(
                                        old_seed,
                                        old_buckets,
                                        node.state.cp as int,
                                        node,
                                        |n: SearchNode| n.trace is Some,
                                    );
                                    lemma_all_nodes_push(
                                        old_seed,
                                        old_buckets,
                                        node.state.cp as int,
                                        node,
                                        |n: SearchNode| within_quality(settings, n, result.quality.inner_value as int),
                                    );
                                }
                                proof {
                                    let p = |n: SearchNode| node_ok(self.explored_nodes@, start, settings, n);
                                    assert(p(node));
                                    let nb = self.search_queue.buckets_view();
                                    assert forall|kk: int, j: int| 0 <= kk < nb.len() && 0 <= j < nb[kk].len() implies p(
                                        #[trigger] nb[kk][j],
                                    ) && nb[kk][j].state.cp == kk by {
                                        if kk == node.state.cp && j == old_buckets[kk].len() {
                                            assert(nb[kk][j] == node);
                                        } else {
                                            assert(nb[kk][j] == old_buckets[kk][j]);
                                        }
                                    }
                                    lemma_push_pending(old_buckets, front_left, node.state.cp as int, node);
                                    assert(child_of(settings, self.explored_nodes@, idx as int, sequence) == Some(node));
                                    lemma_keeps_step(
                                        settings,
                                        start,
                                        self.explored_nodes@,
                                        log0,
                                        best_result.quality.inner_value as int,
                                        best_result.actions@,
                                        q0,
                                        a0,
                                        node,
                                        result.quality.inner_value as int,
                                        result.actions@,
                                    );
                                }
                            }
                        },
                        _ => {},
                    }
                }
                proof {
                    let sc = step_children(settings, self.explored_nodes@, idx as int, i as int);
                    let gen = generated(settings, self.explored_nodes@, idx as int);
                    if let Some(n) = child_of(settings, self.explored_nodes@, idx as int, ActionSequence::all_spec()[i as int]) {
                        assert(gen + sc.push(n) =~= (gen + sc).push(n));
                    }
                    lemma_children_step(
                        settings,
                        self.explored_nodes@,
                        b0,
                        front_left,
                        self.search_queue.buckets_view(),
                        idx as int,
                        i as int,
                    );
                }
                i = i + 1;
            }
            proof {
                assert(i as int == ActionSequence::all_spec().len());
                assert(self.explored_nodes@.len() == idx + 1);
                assert(generated(settings, self.explored_nodes@, idx + 1) == generated(
                    settings,
                    self.explored_nodes@,
                    idx as int,
                ) + step_children(
                    settings,
                    self.explored_nodes@,
                    idx as int,
                    ActionSequence::all_spec().len() as int,
                ));
                assert(keeps_best(
                    settings,
                    start,
                    self.explored_nodes@,
                    generated(settings, self.explored_nodes@, self.explored_nodes@.len() as int),
                    best_result.quality.inner_value as int,
                    best_result.actions@,
                    result.quality.inner_value as int,
                    result.actions@,
                ));
                lemma_children_next_node(
                    settings,
                    self.explored_nodes@,
                    self.search_queue.buckets_view(),
                    self.search_queue.front_view(),
                    idx as int,
                );
            }
        }
        result
    }
}

} // verus!

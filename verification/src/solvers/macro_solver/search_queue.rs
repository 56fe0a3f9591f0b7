use vstd::prelude::*;

use crate::game::actions::Action;
use crate::game::settings::Settings;
use crate::game::state::InProgress;
use crate::solvers::macro_solver::action_sequence::ActionSequence;
use crate::solvers::util::pareto_front::{
    blocks, covered_by, front_of, grounded, lemma_grounded_more, lemma_grounded_source,
    lemma_offer_facts, lemma_offer_grounded, offer, ParetoFront, ParetoKey, ParetoValue,
};

verus! {

/// How a node was reached: the explored node it was reached from (its place in the list of
/// explored nodes) and the step taken from there.
#[derive(Debug, Clone, Copy, PartialEq, Eq, Structural)]
pub struct SearchTrace {
    pub parent: usize,
    pub action: ActionSequence,
}

/// A state of the search and how it was reached (`None` for the state the search started from).
#[derive(Debug, Clone, Copy)]
pub struct SearchNode {
    pub state: InProgress,
    pub trace: Option<SearchTrace>,
}

/// Every explored node was reached from a node explored before it.
pub open spec fn explored_ordered(explored: Seq<SearchNode>) -> bool {
    forall|k: int|
        0 <= k < explored.len() ==> (#[trigger] explored[k].trace matches Some(t) ==> t.parent < k)
}

/// The actions that lead from the start of the search to explored node `k`.
pub open spec fn node_path(explored: Seq<SearchNode>, k: int) -> Seq<Action>
    decreases k,
{
    if 0 <= k < explored.len() {
        match explored[k].trace {
            Some(t) => if t.parent < k {
                node_path(explored, t.parent as int) + t.action.actions_spec()
            } else {
                Seq::empty()
            },
            None => Seq::empty(),
        }
    } else {
        Seq::empty()
    }
}

/// The actions that lead from the start of the search along `trace`.
pub open spec fn trace_path(explored: Seq<SearchNode>, trace: SearchTrace) -> Seq<Action> {
    node_path(explored, trace.parent as int) + trace.action.actions_spec()
}

impl SearchTrace {
    pub fn new(parent: usize, action: ActionSequence) -> (r: Self)
        ensures
            r == (SearchTrace { parent, action }),
    {
        SearchTrace { parent, action }
    }

    /// The actions that lead from the start of the search along the trace, its own step last.
    pub fn actions(self, explored: &Vec<SearchNode>) -> (r: Vec<Action>)
        requires
            explored_ordered(explored@),
            self.parent < explored@.len(),
        ensures
            r@ == trace_path(explored@, self),
    {
        let mut actions: Vec<Action> = Vec::new();
        self.do_trace(explored, &mut actions);
        assert(actions@ =~= trace_path(explored@, self).reverse());
        let mut result: Vec<Action> = Vec::new();
        let mut i: usize = actions.len();
        while i > 0
            invariant
                i <= actions@.len(),
                result@ == actions@.subrange(i as int, actions@.len() as int).reverse(),
            decreases i,
        {
            i = i - 1;
            result.push(actions[i]);
            assert(result@ =~= actions@.subrange(i as int, actions@.len() as int).reverse());
        }
        assert(result@ =~= trace_path(explored@, self));
        result
    }

    /// Pushes the actions of the trace, its own step's last action first, back to the start.
    fn do_trace(self, explored: &Vec<SearchNode>, actions: &mut Vec<Action>)
        requires
            explored_ordered(explored@),
            self.parent < explored@.len(),
        ensures
            final(actions)@ == old(actions)@ + trace_path(explored@, self).reverse(),
        decreases self.parent,
    {
        let steps = self.action.actions();
        let ghost start = actions@;
        let mut k: usize = steps.len();
        while k > 0
            invariant
                k <= steps@.len(),
                actions@ == start + steps@.subrange(k as int, steps@.len() as int).reverse(),
            decreases k,
        {
            k = k - 1;
            actions.push(steps[k]);
            assert(actions@ =~= start + steps@.subrange(k as int, steps@.len() as int).reverse());
        }
        assert(steps@.subrange(0, steps@.len() as int) =~= steps@);
        let ghost own = actions@;
        match explored[self.parent].trace {
            Some(parent) => {
                assert(explored@[self.parent as int].trace matches Some(t) ==> t.parent < self.parent);
                parent.do_trace(explored, actions);
                assert(node_path(explored@, self.parent as int) == trace_path(explored@, parent));
                assert((node_path(explored@, self.parent as int) + self.action.actions_spec()).reverse()
                    =~= self.action.actions_spec().reverse() + node_path(explored@, self.parent as int).reverse());
                assert(actions@ =~= start + trace_path(explored@, self).reverse());
            },
            None => {
                assert(node_path(explored@, self.parent as int) =~= Seq::<Action>::empty());
                assert(trace_path(explored@, self) =~= self.action.actions_spec());
            },
        }
    }
}

/// The key under which a node is compared with others.
pub open spec fn node_key(n: SearchNode) -> u128 {
    ParetoKey::new_spec(n.state).code()
}

/// What a node is compared on.
pub open spec fn node_value(n: SearchNode) -> ParetoValue {
    ParetoValue::new_spec(n.state)
}

/// Offering `nodes` one by one to the fronts: the fronts after, and the nodes they took.
pub open spec fn offer_all(front: Map<u128, Seq<ParetoValue>>, nodes: Seq<SearchNode>) -> (
    Map<u128, Seq<ParetoValue>>,
    Seq<SearchNode>,
)
    decreases nodes.len(),
{
    if nodes.len() == 0 {
        (front, Seq::empty())
    } else {
        let (f, taken) = offer_all(front, nodes.drop_last());
        let n = nodes.last();
        let (nf, ok) = offer(front_of(f, node_key(n)), node_value(n));
        (
            f.insert(node_key(n), nf),
            if ok {
                taken.push(n)
            } else {
                taken
            },
        )
    }
}

/// The nodes of `nodes` whose value is in the front of their key.
pub open spec fn keep_in_front(front: Map<u128, Seq<ParetoValue>>, nodes: Seq<SearchNode>) -> Seq<
    SearchNode,
>
    decreases nodes.len(),
{
    if nodes.len() == 0 {
        Seq::empty()
    } else {
        let kept = keep_in_front(front, nodes.drop_last());
        if front_of(front, node_key(nodes.last())).contains(node_value(nodes.last())) {
            kept.push(nodes.last())
        } else {
            kept
        }
    }
}

/// What popping does to a queue with these seed nodes, buckets and fronts: the seed's last
/// node if there is one; else the last bucket's nodes are offered to the fronts, those still
/// in a front afterwards become the seed, and popping goes on; `None` once no bucket is left.
pub open spec fn pop_spec(
    seed: Seq<SearchNode>,
    buckets: Seq<Seq<SearchNode>>,
    front: Map<u128, Seq<ParetoValue>>,
) -> (Option<SearchNode>, Seq<SearchNode>, Seq<Seq<SearchNode>>, Map<u128, Seq<ParetoValue>>)
    decreases buckets.len(),
{
    if seed.len() > 0 {
        (Some(seed.last()), seed.drop_last(), buckets, front)
    } else if buckets.len() == 0 {
        (None, seed, buckets, front)
    } else {
        let (f, unique) = offer_all(front, buckets.last());
        pop_spec(seed + keep_in_front(f, unique), buckets.drop_last(), f)
    }
}

/// The nodes still to explore: a seed to take first, then buckets by CP, the highest first;
/// a bucket's nodes are filtered through Pareto fronts before they are explored.
pub struct SearchQueue {
    seed: Vec<SearchNode>,
    buckets: Vec<Vec<SearchNode>>,
    pareto_front: ParetoFront,
}

impl SearchQueue {
    pub closed spec fn seed_view(&self) -> Seq<SearchNode> {
        self.seed@
    }

    pub closed spec fn buckets_view(&self) -> Seq<Seq<SearchNode>> {
        self.buckets@.map_values(|b: Vec<SearchNode>| b@)
    }

    pub closed spec fn front_view(&self) -> Map<u128, Seq<ParetoValue>> {
        self.pareto_front@
    }

    /// A queue with one empty bucket for each CP value from 0 to `settings.max_cp`.
    pub fn new(settings: Settings) -> (r: SearchQueue)
        requires
            0 <= settings.max_cp < i16::MAX,
        ensures
            r.seed_view() == Seq::<SearchNode>::empty(),
            r.buckets_view() == Seq::new((settings.max_cp + 1) as nat, |k: int| Seq::<SearchNode>::empty()),
            r.front_view() == Map::<u128, Seq<ParetoValue>>::empty(),
    {
        let mut buckets: Vec<Vec<SearchNode>> = Vec::new();
        let n = (settings.max_cp + 1) as usize;
        while buckets.len() < n
            invariant
                n == settings.max_cp + 1,
                buckets@.len() <= n,
                forall|k: int| 0 <= k < buckets@.len() ==> (#[trigger] buckets@[k])@ == Seq::<SearchNode>::empty(),
            decreases n - buckets@.len(),
        {
            buckets.push(Vec::new());
        }
        let r = SearchQueue { seed: Vec::new(), buckets, pareto_front: ParetoFront::new() };
        assert(r.buckets_view() =~= Seq::new((settings.max_cp + 1) as nat, |k: int| Seq::<SearchNode>::empty()));
        r
    }

    /// Adds a node to the seed.
    pub fn push_seed(&mut self, node: SearchNode)
        ensures
            final(self).seed_view() == old(self).seed_view().push(node),
            final(self).buckets_view() == old(self).buckets_view(),
            final(self).front_view() == old(self).front_view(),
    {
        self.seed.push(node);
    }

    /// Adds a node to the bucket of its CP.
    pub fn push(&mut self, node: SearchNode)
        requires
            0 <= node.state.cp < old(self).buckets_view().len(),
        ensures
            final(self).seed_view() == old(self).seed_view(),
            final(self).buckets_view() == old(self).buckets_view().update(
                node.state.cp as int,
                old(self).buckets_view()[node.state.cp as int].push(node),
            ),
            final(self).front_view() == old(self).front_view(),
    {
        let cp = node.state.cp as usize;
        self.buckets[cp].push(node);
        assert(self.buckets_view() =~= old(self).buckets_view().update(
            node.state.cp as int,
            old(self).buckets_view()[node.state.cp as int].push(node),
        ));
    }

    /// The next node to explore (see `pop_spec`).
    pub fn pop(&mut self) -> (r: Option<SearchNode>)
        ensures
            (r, final(self).seed_view(), final(self).buckets_view(), final(self).front_view())
                == pop_spec(old(self).seed_view(), old(self).buckets_view(), old(self).front_view()),
    {
        loop
            invariant
                pop_spec(self.seed_view(), self.buckets_view(), self.front_view()) == pop_spec(
                    old(self).seed_view(),
                    old(self).buckets_view(),
                    old(self).front_view(),
                ),
            decreases self.buckets_view().len(),
        {
            match self.seed.pop() {
                Some(node) => {
                    return Some(node);
                },
                None => {},
            }
            if !self.pop_bucket() {
                return None;
            }
        }
    }

    /// Moves the last bucket's nodes that the fronts keep to the seed; `false` when no bucket
    /// is left.
    fn pop_bucket(&mut self) -> (r: bool)
        requires
            old(self).seed_view().len() == 0,
        ensures
            r == (old(self).buckets_view().len() > 0),
            r ==> {
                let (f, unique) = offer_all(old(self).front_view(), old(self).buckets_view().last());
                &&& final(self).seed_view() == keep_in_front(f, unique)
                &&& final(self).buckets_view() == old(self).buckets_view().drop_last()
                &&& final(self).front_view() == f
            },
            !r ==> final(self).seed_view() == old(self).seed_view() && final(self).buckets_view()
                == old(self).buckets_view() && final(self).front_view() == old(self).front_view(),
    {
        let ghost old_buckets = self.buckets_view();
        match self.buckets.pop() {
            Some(bucket) => {
                let ghost old_front = self.pareto_front@;
                assert(self.buckets_view() =~= old_buckets.drop_last());
                assert(bucket@ == old_buckets.last());
                let mut unique: Vec<SearchNode> = Vec::new();
                let mut i: usize = 0;
                while i < bucket.len()
                    invariant
                        i <= bucket@.len(),
                        self.seed@ == Seq::<SearchNode>::empty(),
                        self.buckets_view() == old_buckets.drop_last(),
                        offer_all(old_front, bucket@.take(i as int)) == (self.pareto_front@, unique@),
                    decreases bucket@.len() - i,
                {
                    assert(bucket@.take(i + 1).drop_last() =~= bucket@.take(i as int));
                    let node = bucket[i];
                    if self.pareto_front.insert(&node.state) {
                        unique.push(node);
                    }
                    i = i + 1;
                }
                assert(bucket@.take(i as int) =~= bucket@);
                let mut k: usize = 0;
                assert(unique@.take(0) =~= Seq::<SearchNode>::empty());
                let ghost front_after = self.pareto_front@;
                while k < unique.len()
                    invariant
                        k <= unique@.len(),
                        self.pareto_front@ == front_after,
                        self.buckets_view() == old_buckets.drop_last(),
                        self.seed@ == keep_in_front(self.pareto_front@, unique@.take(k as int)),
                    decreases unique@.len() - k,
                {
                    assert(unique@.take(k + 1).drop_last() =~= unique@.take(k as int));
                    let node = unique[k];
                    if self.pareto_front.has(&node.state) {
                        self.seed.push(node);
                    }
                    k = k + 1;
                }
                assert(unique@.take(k as int) =~= unique@);
                true
            },
            None => {
                assert(self.buckets_view() =~= old_buckets);
                false
            },
        }
    }
}

/// Every node of the seed and of the buckets has property `p`.
pub open spec fn all_nodes(
    seed: Seq<SearchNode>,
    buckets: Seq<Seq<SearchNode>>,
    p: spec_fn(SearchNode) -> bool,
) -> bool {
    &&& forall|j: int| 0 <= j < seed.len() ==> p(#[trigger] seed[j])
    &&& forall|k: int, j: int| 0 <= k < buckets.len() && 0 <= j < buckets[k].len() ==> p(#[trigger] buckets[k][j])
}

/// Each bucket holds nodes of its own CP, and the seed nodes of CP at most the number of
/// buckets left.
pub open spec fn queue_wf(seed: Seq<SearchNode>, buckets: Seq<Seq<SearchNode>>) -> bool {
    &&& forall|k: int, j: int|
        0 <= k < buckets.len() && 0 <= j < buckets[k].len() ==> (#[trigger] buckets[k][j]).state.cp == k
    &&& forall|j: int| 0 <= j < seed.len() ==> 0 <= (#[trigger] seed[j]).state.cp <= buckets.len()
}

/// The nodes that the fronts take are nodes that were offered.
proof fn lemma_offer_all_taken(front: Map<u128, Seq<ParetoValue>>, nodes: Seq<SearchNode>, p: spec_fn(SearchNode) -> bool)
    requires
        forall|i: int| 0 <= i < nodes.len() ==> p(#[trigger] nodes[i]),
    ensures
        forall|j: int| 0 <= j < offer_all(front, nodes).1.len() ==> p(#[trigger] offer_all(front, nodes).1[j]),
    decreases nodes.len(),
{
    if nodes.len() > 0 {
        assert forall|i: int| 0 <= i < nodes.drop_last().len() implies p(#[trigger] nodes.drop_last()[i]) by {
            assert(nodes.drop_last()[i] == nodes[i]);
        }
        lemma_offer_all_taken(front, nodes.drop_last(), p);
        assert(p(nodes[nodes.len() - 1]));
        let (f, taken) = offer_all(front, nodes.drop_last());
        let n = nodes.last();
        let (nf, ok) = offer(front_of(f, node_key(n)), node_value(n));
        let result = offer_all(front, nodes).1;
        assert(result == if ok {
            taken.push(n)
        } else {
            taken
        });
        assert forall|j: int| 0 <= j < result.len() implies p(#[trigger] result[j]) by {
            if j < taken.len() {
                assert(result[j] == taken[j]);
            }
        }
    }
}

/// The nodes kept are among those given.
proof fn lemma_keep_in_front_kept(front: Map<u128, Seq<ParetoValue>>, nodes: Seq<SearchNode>, p: spec_fn(SearchNode) -> bool)
    requires
        forall|i: int| 0 <= i < nodes.len() ==> p(#[trigger] nodes[i]),
    ensures
        forall|j: int| 0 <= j < keep_in_front(front, nodes).len() ==> p(#[trigger] keep_in_front(front, nodes)[j]),
    decreases nodes.len(),
{
    if nodes.len() > 0 {
        assert forall|i: int| 0 <= i < nodes.drop_last().len() implies p(#[trigger] nodes.drop_last()[i]) by {
            assert(nodes.drop_last()[i] == nodes[i]);
        }
        lemma_keep_in_front_kept(front, nodes.drop_last(), p);
        assert(p(nodes[nodes.len() - 1]));
        let kept = keep_in_front(front, nodes.drop_last());
        let result = keep_in_front(front, nodes);
        assert forall|j: int| 0 <= j < result.len() implies p(#[trigger] result[j]) by {
            if j < kept.len() {
                assert(result[j] == kept[j]);
            }
        }
    }
}

/// The queue hands out only nodes it was given: popping keeps a well formed queue whose nodes
/// all have any property that all nodes had; a node popped has it too, has at most as much CP
/// as there are buckets left, and the number of buckets, then of seed nodes, went down.
pub proof fn lemma_pop_spec(
    seed: Seq<SearchNode>,
    buckets: Seq<Seq<SearchNode>>,
    front: Map<u128, Seq<ParetoValue>>,
    p: spec_fn(SearchNode) -> bool,
)
    requires
        queue_wf(seed, buckets),
        all_nodes(seed, buckets, p),
    ensures
        ({
            let (r, s2, b2, f2) = pop_spec(seed, buckets, front);
            &&& queue_wf(s2, b2)
            &&& all_nodes(s2, b2, p)
            &&& b2.len() <= buckets.len()
            &&& (r matches Some(n) ==> p(n) && 0 <= n.state.cp <= b2.len())
            &&& (r is Some ==> b2.len() < buckets.len() || (b2.len() == buckets.len() && s2.len()
                < seed.len()))
        }),
    decreases buckets.len(),
{
    if seed.len() > 0 {
        let s2 = seed.drop_last();
        assert(p(seed[seed.len() - 1]));
        assert forall|j: int| 0 <= j < s2.len() implies p(#[trigger] s2[j]) && 0 <= s2[j].state.cp <= buckets.len() by {
            assert(s2[j] == seed[j]);
        }
    } else if buckets.len() > 0 {
        let last = buckets.last();
        let b2 = buckets.drop_last();
        let (f, unique) = offer_all(front, last);
        let level = (buckets.len() - 1) as int;
        let q = |n: SearchNode| p(n) && n.state.cp == level;
        assert forall|i: int| 0 <= i < last.len() implies q(#[trigger] last[i]) by {
            assert(p(buckets[level][i]));
        }
        lemma_offer_all_taken(front, last, q);
        lemma_keep_in_front_kept(f, unique, q);
        let kept = keep_in_front(f, unique);
        let s2 = seed + kept;
        assert(s2 =~= kept);
        assert forall|k: int, j: int| 0 <= k < b2.len() && 0 <= j < b2[k].len() implies (#[trigger] b2[k][j]).state.cp == k && p(b2[k][j]) by {
            assert(b2[k] == buckets[k]);
        }
        assert forall|j: int| 0 <= j < s2.len() implies 0 <= (#[trigger] s2[j]).state.cp <= b2.len() && p(s2[j]) by {
            assert(q(kept[j]));
        }
        lemma_pop_spec(s2, b2, f, p);
    }
}

/// The values of the nodes of `nodes` that have key `key`.
pub open spec fn node_values(nodes: Seq<SearchNode>, key: u128) -> Set<ParetoValue> {
    Set::new(
        |v: ParetoValue|
            exists|i: int|
                0 <= i < nodes.len() && node_key(nodes[i]) == key && #[trigger] node_value(nodes[i])
                    == v,
    )
}

/// Value `i` of the front of `key` is blocked by the value of a node with that key, one of `a`
/// or of `b`.
pub open spec fn backed_at(
    front: Map<u128, Seq<ParetoValue>>,
    a: Seq<SearchNode>,
    b: Seq<SearchNode>,
    key: u128,
    i: int,
) -> bool {
    exists|n: SearchNode|
        (a.contains(n) || b.contains(n)) && node_key(n) == key && #[trigger] blocks(
            node_value(n),
            front_of(front, key)[i],
        )
}

/// Every value of every front is blocked by the value of a node with its key, one of `a` or
/// of `b`.
pub open spec fn fronts_backed(
    front: Map<u128, Seq<ParetoValue>>,
    a: Seq<SearchNode>,
    b: Seq<SearchNode>,
) -> bool {
    forall|key: u128, i: int|
        0 <= i < front_of(front, key).len() ==> #[trigger] backed_at(front, a, b, key, i)
}

/// Node `n` waits in a bucket, or the front of its key blocks it.
pub open spec fn pending_or_covered(
    buckets: Seq<Seq<SearchNode>>,
    front: Map<u128, Seq<ParetoValue>>,
    n: SearchNode,
) -> bool {
    (exists|k: int, j: int| 0 <= k < buckets.len() && 0 <= j < buckets[k].len() && #[trigger] buckets[k][j] == n)
        || covered_by(front_of(front, node_key(n)), node_value(n))
}

/// The sources of the front of `key` after offering: what it held, and the values of the
/// nodes taken with that key.
pub open spec fn front_sources(
    front: Map<u128, Seq<ParetoValue>>,
    taken: Seq<SearchNode>,
    key: u128,
) -> Set<ParetoValue> {
    front_of(front, key).to_set().union(node_values(taken, key))
}

proof fn lemma_node_values_push(t: Seq<SearchNode>, n: SearchNode, key: u128)
    ensures
        node_values(t, key).subset_of(node_values(t.push(n), key)),
        node_key(n) == key ==> node_values(t.push(n), key).contains(node_value(n)),
{
    assert forall|x: ParetoValue| node_values(t, key).contains(x) implies node_values(t.push(n), key).contains(x) by {
        let i = choose|i: int| 0 <= i < t.len() && node_key(t[i]) == key && #[trigger] node_value(t[i]) == x;
        assert(t.push(n)[i] == t[i]);
    }
    if node_key(n) == key {
        assert(t.push(n)[t.len() as int] == n);
    }
}

/// One offer within `offer_all`: the front of the offered node's key stays grounded.
proof fn lemma_offer_all_step_grounded(
    front: Map<u128, Seq<ParetoValue>>,
    nodes: Seq<SearchNode>,
    key: u128,
)
    requires
        nodes.len() > 0,
        grounded(
            front_of(offer_all(front, nodes.drop_last()).0, key),
            front_sources(front, offer_all(front, nodes.drop_last()).1, key),
        ),
    ensures
        grounded(front_of(offer_all(front, nodes).0, key), front_sources(front, offer_all(front, nodes).1, key)),
{
    let (f1, t1) = offer_all(front, nodes.drop_last());
    let (f, unique) = offer_all(front, nodes);
    let n = nodes.last();
    let k = node_key(n);
    let v = node_value(n);
    let (nf, ok) = offer(front_of(f1, k), v);
    let src1 = front_sources(front, t1, key);
    let src = front_sources(front, unique, key);
    lemma_node_values_push(t1, n, key);
    assert(src1.subset_of(src));
    if key == k {
        lemma_offer_grounded(front_of(f1, k), v, src1);
        let src2 = if ok {
            src1.insert(v)
        } else {
            src1
        };
        assert(src2.subset_of(src));
        assert(front_of(f, key) == nf);
        lemma_grounded_more(nf, src2, src);
    } else {
        assert(front_of(f, key) == front_of(f1, key));
        lemma_grounded_more(front_of(f1, key), src1, src);
    }
}

/// Offering nodes one by one: every front is grounded in what it held and the values of the
/// nodes taken; every node offered is blocked by the front of its key; and what a front
/// covered it still covers.
proof fn lemma_offer_all_facts(front: Map<u128, Seq<ParetoValue>>, nodes: Seq<SearchNode>)
    ensures
        forall|key: u128|
            #[trigger] grounded(
                front_of(offer_all(front, nodes).0, key),
                front_sources(front, offer_all(front, nodes).1, key),
            ),
        forall|i: int|
            0 <= i < nodes.len() ==> covered_by(
                front_of(offer_all(front, nodes).0, node_key(#[trigger] nodes[i])),
                node_value(nodes[i]),
            ),
        forall|key: u128, x: ParetoValue|
            #[trigger] covered_by(front_of(front, key), x) ==> covered_by(
                front_of(offer_all(front, nodes).0, key),
                x,
            ),
    decreases nodes.len(),
{
    let (f, unique) = offer_all(front, nodes);
    if nodes.len() == 0 {
        assert forall|key: u128| #[trigger] grounded(front_of(f, key), front_sources(front, unique, key)) by {
            let fr = front_of(front, key);
            assert forall|i: int| 0 <= i < fr.len() implies front_sources(front, unique, key).contains(
                #[trigger] fr[i],
            ) by {
                assert(fr.to_set().contains(fr[i]));
            }
        }
    } else {
        let prev = nodes.drop_last();
        lemma_offer_all_facts(front, prev);
        let (f1, t1) = offer_all(front, prev);
        let n = nodes.last();
        let k = node_key(n);
        let v = node_value(n);
        let (nf, ok) = offer(front_of(f1, k), v);
        assert(f == f1.insert(k, nf));
        lemma_offer_facts(front_of(f1, k), v);
        assert forall|key: u128| #[trigger] grounded(front_of(f, key), front_sources(front, unique, key)) by {
            assert(grounded(front_of(f1, key), front_sources(front, t1, key)));
            lemma_offer_all_step_grounded(front, nodes, key);
        }
        assert forall|i: int| 0 <= i < nodes.len() implies covered_by(
            front_of(f, node_key(#[trigger] nodes[i])),
            node_value(nodes[i]),
        ) by {
            if i < prev.len() {
                assert(prev[i] == nodes[i]);
                assert(covered_by(front_of(f1, node_key(prev[i])), node_value(prev[i])));
                if node_key(nodes[i]) != k {
                    assert(front_of(f, node_key(nodes[i])) == front_of(f1, node_key(nodes[i])));
                }
            } else {
                assert(nodes[i] == n);
            }
        }
        assert forall|key: u128, x: ParetoValue| #[trigger] covered_by(front_of(front, key), x)
            implies covered_by(front_of(f, key), x) by {
            assert(covered_by(front_of(f1, key), x));
            if key != k {
                assert(front_of(f, key) == front_of(f1, key));
            }
        }
    }
}

/// A node is kept from the fronts' pick when its value is in the front of its key.
proof fn lemma_keep_in_front_member(front: Map<u128, Seq<ParetoValue>>, nodes: Seq<SearchNode>, i: int)
    requires
        0 <= i < nodes.len(),
        front_of(front, node_key(nodes[i])).contains(node_value(nodes[i])),
    ensures
        keep_in_front(front, nodes).contains(nodes[i]),
    decreases nodes.len(),
{
    let kept = keep_in_front(front, nodes.drop_last());
    if i < nodes.len() - 1 {
        assert(nodes.drop_last()[i] == nodes[i]);
        lemma_keep_in_front_member(front, nodes.drop_last(), i);
        let m = choose|m: int| 0 <= m < kept.len() && kept[m] == nodes[i];
        assert(keep_in_front(front, nodes)[m] == nodes[i]);
    } else {
        assert(keep_in_front(front, nodes)[kept.len() as int] == nodes[i]);
    }
}

/// After a bucket is filtered through the fronts, they are backed by the explored nodes and
/// the nodes kept.
proof fn lemma_bucket_backed(
    explored: Seq<SearchNode>,
    buckets: Seq<Seq<SearchNode>>,
    front: Map<u128, Seq<ParetoValue>>,
)
    requires
        buckets.len() > 0,
        fronts_backed(front, explored, Seq::<SearchNode>::empty()),
    ensures
        fronts_backed(
            offer_all(front, buckets.last()).0,
            explored,
            keep_in_front(offer_all(front, buckets.last()).0, offer_all(front, buckets.last()).1),
        ),
{
    let last = buckets.last();
    let (f, unique) = offer_all(front, last);
    let kept = keep_in_front(f, unique);
    lemma_offer_all_facts(front, last);
    assert forall|key: u128, i: int| 0 <= i < front_of(f, key).len() implies #[trigger] backed_at(f, explored, kept, key, i) by {
        let fr = front_of(f, key);
        let src = front_sources(front, unique, key);
        assert(grounded(fr, src));
        lemma_grounded_source(fr, src, i);
        let m = choose|m: int| 0 <= m < fr.len() && src.contains(fr[m]) && #[trigger] blocks(fr[m], fr[i]);
        let y = fr[m];
        if front_of(front, key).to_set().contains(y) {
            let i0 = choose|i0: int| 0 <= i0 < front_of(front, key).len() && front_of(front, key)[i0] == y;
            assert(front_of(front, key)[i0] == y);
            assert(backed_at(front, explored, Seq::<SearchNode>::empty(), key, i0));
            let n = choose|n: SearchNode|
                (explored.contains(n) || Seq::<SearchNode>::empty().contains(n)) && node_key(n) == key
                    && #[trigger] blocks(node_value(n), front_of(front, key)[i0]);
            assert(blocks(node_value(n), fr[i]));
            assert(explored.contains(n) || kept.contains(n));
        } else {
            assert(node_values(unique, key).contains(y));
            let u = choose|u: int| 0 <= u < unique.len() && node_key(unique[u]) == key && #[trigger] node_value(unique[u]) == y;
            assert(fr.contains(y));
            lemma_keep_in_front_member(f, unique, u);
            assert(blocks(node_value(unique[u]), fr[i]));
            assert(explored.contains(unique[u]) || kept.contains(unique[u]));
        }
    }
}

/// Popping moves no node out of reach: the fronts stay backed by the explored and seed nodes
/// (the popped node counting as explored), every node that waited in a bucket or was covered
/// still does or is, and the queue is empty when nothing is popped.
pub proof fn lemma_pop_keeps_closure(
    explored: Seq<SearchNode>,
    seed: Seq<SearchNode>,
    buckets: Seq<Seq<SearchNode>>,
    front: Map<u128, Seq<ParetoValue>>,
)
    requires
        fronts_backed(front, explored, seed),
    ensures
        ({
            let (r, s2, b2, f2) = pop_spec(seed, buckets, front);
            &&& r matches Some(x) ==> fronts_backed(f2, explored.push(x), s2)
            &&& r is None ==> s2.len() == 0 && b2.len() == 0 && fronts_backed(
                f2,
                explored,
                Seq::<SearchNode>::empty(),
            )
            &&& forall|n: SearchNode|
                #[trigger] pending_or_covered(buckets, front, n) ==> pending_or_covered(b2, f2, n)
        }),
    decreases buckets.len(),
{
    if seed.len() > 0 {
        let x = seed.last();
        let s2 = seed.drop_last();
        assert forall|key: u128, i: int| 0 <= i < front_of(front, key).len() implies #[trigger] backed_at(
            front,
            explored.push(x),
            s2,
            key,
            i,
        ) by {
            assert(backed_at(front, explored, seed, key, i));
            let n = choose|n: SearchNode|
                (explored.contains(n) || seed.contains(n)) && node_key(n) == key && #[trigger] blocks(
                    node_value(n),
                    front_of(front, key)[i],
                );
            if explored.contains(n) {
                let j = choose|j: int| 0 <= j < explored.len() && explored[j] == n;
                assert(explored.push(x)[j] == n);
            } else {
                let j = choose|j: int| 0 <= j < seed.len() && seed[j] == n;
                if j == seed.len() - 1 {
                    assert(explored.push(x)[explored.len() as int] == n);
                } else {
                    assert(s2[j] == n);
                }
            }
            assert(explored.push(x).contains(n) || s2.contains(n));
        }
    } else if buckets.len() == 0 {
        assert forall|key: u128, i: int| 0 <= i < front_of(front, key).len() implies #[trigger] backed_at(front, explored, Seq::<SearchNode>::empty(), key, i) by {
            assert(backed_at(front, explored, seed, key, i));
            let n = choose|n: SearchNode|
                (explored.contains(n) || seed.contains(n)) && node_key(n) == key && #[trigger] blocks(
                    node_value(n),
                    front_of(front, key)[i],
                );
            assert(explored.contains(n) || Seq::<SearchNode>::empty().contains(n));
        }
    } else {
        let last = buckets.last();
        let b2 = buckets.drop_last();
        let (f, unique) = offer_all(front, last);
        let kept = keep_in_front(f, unique);
        lemma_offer_all_facts(front, last);
        assert forall|key: u128, i: int| 0 <= i < front_of(front, key).len() implies #[trigger] backed_at(front, explored, Seq::<SearchNode>::empty(), key, i) by {
            assert(backed_at(front, explored, seed, key, i));
            let n = choose|n: SearchNode|
                (explored.contains(n) || seed.contains(n)) && node_key(n) == key && #[trigger] blocks(
                    node_value(n),
                    front_of(front, key)[i],
                );
            assert(explored.contains(n) || Seq::<SearchNode>::empty().contains(n));
        }
        assert(fronts_backed(front, explored, Seq::<SearchNode>::empty()));
        lemma_bucket_backed(explored, buckets, front);
        let s1 = seed + kept;
        assert(s1 =~= kept);
        lemma_pop_keeps_closure(explored, s1, b2, f);
        assert forall|n: SearchNode| #[trigger] pending_or_covered(buckets, front, n) implies pending_or_covered(
            b2,
            f,
            n,
        ) by {
            if exists|k: int, j: int| 0 <= k < buckets.len() && 0 <= j < buckets[k].len() && #[trigger] buckets[k][j] == n {
                let (k, j) = choose|k: int, j: int| 0 <= k < buckets.len() && 0 <= j < buckets[k].len() && #[trigger] buckets[k][j] == n;
                if k == buckets.len() - 1 {
                    assert(last[j] == n);
                    assert(covered_by(front_of(f, node_key(last[j])), node_value(last[j])));
                } else {
                    assert(b2[k][j] == n);
                }
            } else {
                assert(covered_by(front_of(front, node_key(n)), node_value(n)));
            }
        }
    }
}

} // verus!

use std::cmp::Ordering;
use std::collections::HashMap;

use vstd::prelude::*;

use crate::game::actions::ComboAction;
use crate::game::effects::Effects;
use crate::game::state::InProgress;
use crate::solvers::util::pareto_key::{combo_code, combo_code_exec, effect_bytes, pack, pack_exec};

verus! {

broadcast use vstd::std_specs::hash::group_hash_axioms;

/// What two states must share to be compared: combo, durability and effects.
#[derive(Debug, Clone, Copy, PartialEq, Eq, Hash)]
pub struct ParetoKey {
    pub combo: Option<ComboAction>,
    pub durability: i32,
    pub effects: Effects,
}

impl ParetoKey {
    pub open spec fn new_spec(state: InProgress) -> ParetoKey {
        ParetoKey {
            combo: state.combo,
            durability: state.durability as i32,
            effects: state.effects,
        }
    }

    pub fn new(state: &InProgress) -> (r: ParetoKey)
        ensures
            r == Self::new_spec(*state),
    {
        ParetoKey { combo: state.combo, durability: state.durability as i32, effects: state.effects }
    }

    /// The key as one number.
    pub open spec fn code(self) -> u128 {
        pack(combo_code(self.combo), self.durability as u32, effect_bytes(self.effects))
    }

    pub fn code_exec(&self) -> (r: u128)
        ensures
            r == self.code(),
    {
        pack_exec(combo_code_exec(self.combo), self.durability as u32, &self.effects)
    }
}

/// What two states with the same key are compared on: the progress and quality still missing.
#[derive(Debug, Clone, Copy, PartialEq, Eq, Structural)]
pub struct ParetoValue {
    pub missing_progress: u32,
    pub missing_quality: u32,
}

/// The comparison of two values by what has been achieved: `Greater` when `a` misses strictly
/// less progress and strictly less quality, `Less` for the reverse, `Equal` when equal, and
/// `None` otherwise.
pub open spec fn dominance(a: ParetoValue, b: ParetoValue) -> Option<Ordering> {
    if a.missing_progress > b.missing_progress && a.missing_quality > b.missing_quality {
        Some(Ordering::Less)
    } else if a == b {
        Some(Ordering::Equal)
    } else if a.missing_progress < b.missing_progress && a.missing_quality < b.missing_quality {
        Some(Ordering::Greater)
    } else {
        None
    }
}

/// `a` misses strictly more progress and strictly more quality than `b`.
pub open spec fn beaten(a: ParetoValue, b: ParetoValue) -> bool {
    a.missing_progress > b.missing_progress && a.missing_quality > b.missing_quality
}

/// `a` equals `b` or misses strictly less progress and strictly less quality.
pub open spec fn blocks(a: ParetoValue, b: ParetoValue) -> bool {
    a == b || (a.missing_progress < b.missing_progress && a.missing_quality < b.missing_quality)
}

/// `dominance` gives `Less` exactly when `a` is beaten by `b`, and `Equal` or `Greater` exactly
/// when `a` blocks `b`.
pub proof fn lemma_dominance(a: ParetoValue, b: ParetoValue)
    ensures
        (dominance(a, b) == Some(Ordering::Less)) == beaten(a, b),
        (dominance(a, b) == Some(Ordering::Equal) || dominance(a, b) == Some(Ordering::Greater))
            == blocks(a, b),
{
}

fn is_beaten(a: &ParetoValue, b: &ParetoValue) -> (r: bool)
    ensures
        r == beaten(*a, *b),
{
    a.missing_progress > b.missing_progress && a.missing_quality > b.missing_quality
}

fn is_blocking(a: &ParetoValue, b: &ParetoValue) -> (r: bool)
    ensures
        r == blocks(*a, *b),
{
    *a == *b || (a.missing_progress < b.missing_progress && a.missing_quality < b.missing_quality)
}

impl ParetoValue {
    pub open spec fn new_spec(state: InProgress) -> ParetoValue {
        ParetoValue {
            missing_progress: state.missing_progress.inner_value,
            missing_quality: state.missing_quality.inner_value,
        }
    }

    pub fn new(state: &InProgress) -> (r: ParetoValue)
        ensures
            r == Self::new_spec(*state),
    {
        ParetoValue {
            missing_progress: state.missing_progress.inner_value,
            missing_quality: state.missing_quality.inner_value,
        }
    }

    pub fn partial_cmp(&self, other: &Self) -> (r: Option<Ordering>)
        ensures
            r == dominance(*self, *other),
    {
        if self.missing_progress > other.missing_progress && self.missing_quality
            > other.missing_quality {
            Some(Ordering::Less)
        } else if self.missing_progress == other.missing_progress && self.missing_quality
            == other.missing_quality {
            Some(Ordering::Equal)
        } else if self.missing_progress < other.missing_progress && self.missing_quality
            < other.missing_quality {
            Some(Ordering::Greater)
        } else {
            None
        }
    }
}

/// `s` with runs of equal consecutive values cut down to one value.
pub open spec fn dedup_seq(s: Seq<ParetoValue>) -> Seq<ParetoValue>
    decreases s.len(),
{
    if s.len() == 0 {
        s
    } else {
        let d = dedup_seq(s.drop_last());
        if d.len() > 0 && d.last() == s.last() {
            d
        } else {
            d.push(s.last())
        }
    }
}

/// The values of `front` that `v` beats are replaced by `v`.
pub open spec fn replace_dominated(front: Seq<ParetoValue>, v: ParetoValue) -> Seq<ParetoValue> {
    front.map_values(
        |x: ParetoValue|
            if beaten(x, v) {
                v
            } else {
                x
            },
    )
}

/// The position of the first value of `front` that blocks `v`, or the length of `front`.
pub open spec fn first_blocking(front: Seq<ParetoValue>, v: ParetoValue) -> int
    decreases front.len(),
{
    if front.len() == 0 {
        0
    } else if blocks(front[0], v) {
        0
    } else {
        1 + first_blocking(front.drop_first(), v)
    }
}

/// The front after offering `v`, and whether `v` was taken: values that `v` beats are replaced
/// by it up to the first value that blocks it; if none blocks it, repeated values are merged
/// and `v` is added at the end.
pub open spec fn offer(front: Seq<ParetoValue>, v: ParetoValue) -> (Seq<ParetoValue>, bool) {
    let k = first_blocking(front, v);
    if k < front.len() {
        (replace_dominated(front.take(k), v) + front.skip(k), false)
    } else {
        (dedup_seq(replace_dominated(front, v)).push(v), true)
    }
}

/// Some value of `front` blocks `v`.
pub open spec fn covered_by(front: Seq<ParetoValue>, v: ParetoValue) -> bool {
    exists|j: int| 0 <= j < front.len() && #[trigger] blocks(front[j], v)
}

/// Every value of `front` is in `sources` or is beaten by another value of `front`.
pub open spec fn grounded(front: Seq<ParetoValue>, sources: Set<ParetoValue>) -> bool {
    forall|i: int|
        0 <= i < front.len() ==> sources.contains(#[trigger] front[i]) || exists|j: int|
            0 <= j < front.len() && beaten(front[i], #[trigger] front[j])
}

/// Cutting runs of equal values keeps every value and adds none.
proof fn lemma_dedup_contents(s: Seq<ParetoValue>)
    ensures
        forall|i: int| 0 <= i < s.len() ==> dedup_seq(s).contains(#[trigger] s[i]),
        forall|j: int| 0 <= j < dedup_seq(s).len() ==> s.contains(#[trigger] dedup_seq(s)[j]),
    decreases s.len(),
{
    if s.len() > 0 {
        let p = s.drop_last();
        lemma_dedup_contents(p);
        let d = dedup_seq(p);
        let r = dedup_seq(s);
        assert forall|i: int| 0 <= i < s.len() implies r.contains(#[trigger] s[i]) by {
            if i < p.len() {
                assert(p[i] == s[i]);
                assert(d.contains(p[i]));
                let k = choose|k: int| 0 <= k < d.len() && d[k] == p[i];
                if d.len() > 0 && d.last() == s.last() {
                    assert(r[k] == s[i]);
                } else {
                    assert(r[k] == d[k]);
                }
            } else {
                if d.len() > 0 && d.last() == s.last() {
                    assert(r[d.len() - 1] == s[i]);
                } else {
                    assert(r[d.len() as int] == s[i]);
                }
            }
        }
        assert forall|j: int| 0 <= j < r.len() implies s.contains(#[trigger] r[j]) by {
            if j < d.len() {
                assert(r[j] == d[j]);
                assert(p.contains(d[j]));
                let k = choose|k: int| 0 <= k < p.len() && p[k] == d[j];
                assert(s[k] == p[k]);
            } else {
                assert(r[j] == s[s.len() - 1]);
            }
        }
    }
}

/// What offering `v` leaves: each value is `v` or a value that was there; what was covered
/// stays covered; `v` is covered; and where `v` is refused, a value that was there and blocks
/// it is still there.
pub proof fn lemma_offer_facts(front: Seq<ParetoValue>, v: ParetoValue)
    ensures
        ({
            let (f, taken) = offer(front, v);
            &&& forall|j: int| 0 <= j < f.len() ==> #[trigger] f[j] == v || front.contains(f[j])
            &&& forall|x: ParetoValue| #[trigger] covered_by(front, x) ==> covered_by(f, x)
            &&& covered_by(f, v)
            &&& taken ==> f.contains(v)
            &&& !taken ==> exists|k: int|
                0 <= k < f.len() && k < front.len() && #[trigger] f[k] == front[k] && blocks(front[k], v)
        }),
{
    let (f, taken) = offer(front, v);
    let k = first_blocking(front, v);
    lemma_first_blocking(front, v, 0);
    if k < front.len() {
        let rd = replace_dominated(front.take(k), v);
        assert(f == rd + front.skip(k));
        assert(blocks(front[k], v)) by {
            lemma_first_blocking_is_blocking(front, v);
        }
        assert(f[k] == front[k]);
        assert forall|j: int| 0 <= j < f.len() implies #[trigger] f[j] == v || front.contains(f[j]) by {
            if j < k {
                assert(f[j] == rd[j]);
                if !beaten(front[j], v) {
                    assert(f[j] == front[j]);
                }
            } else {
                assert(f[j] == front[j]);
            }
        }
        assert forall|x: ParetoValue| #[trigger] covered_by(front, x) implies covered_by(f, x) by {
            let j = choose|j: int| 0 <= j < front.len() && #[trigger] blocks(front[j], x);
            if j < k {
                assert(f[j] == rd[j]);
                assert(blocks(f[j], x));
            } else {
                assert(f[j] == front[j]);
            }
        }
        assert(blocks(f[k], v));
    } else {
        let rd = replace_dominated(front, v);
        let d = dedup_seq(rd);
        lemma_dedup_contents(rd);
        assert(f == d.push(v));
        assert(f[d.len() as int] == v);
        assert(blocks(f[d.len() as int], v));
        assert forall|j: int| 0 <= j < f.len() implies #[trigger] f[j] == v || front.contains(f[j]) by {
            if j < d.len() {
                assert(f[j] == d[j]);
                assert(rd.contains(d[j]));
                let m = choose|m: int| 0 <= m < rd.len() && rd[m] == d[j];
                if !beaten(front[m], v) {
                    assert(rd[m] == front[m]);
                }
            }
        }
        assert forall|x: ParetoValue| #[trigger] covered_by(front, x) implies covered_by(f, x) by {
            let j = choose|j: int| 0 <= j < front.len() && #[trigger] blocks(front[j], x);
            assert(blocks(rd[j], x));
            assert(d.contains(rd[j]));
            let m = choose|m: int| 0 <= m < d.len() && d[m] == rd[j];
            assert(f[m] == d[m]);
            assert(blocks(f[m], x));
        }
    }
}

proof fn lemma_first_blocking_is_blocking(front: Seq<ParetoValue>, v: ParetoValue)
    ensures
        first_blocking(front, v) < front.len() ==> blocks(front[first_blocking(front, v)], v),
    decreases front.len(),
{
    if front.len() > 0 && !blocks(front[0], v) {
        let df = front.drop_first();
        lemma_first_blocking_is_blocking(df, v);
        lemma_first_blocking(df, v, 0);
        let k1 = first_blocking(df, v);
        assert(first_blocking(front, v) == 1 + k1);
        if k1 < df.len() {
            assert(df[k1] == front[k1 + 1]);
        }
    }
}

/// Offering keeps a front grounded, the value joining the sources when it is taken.
pub proof fn lemma_offer_grounded(front: Seq<ParetoValue>, v: ParetoValue, sources: Set<ParetoValue>)
    requires
        grounded(front, sources),
    ensures
        grounded(
            offer(front, v).0,
            if offer(front, v).1 {
                sources.insert(v)
            } else {
                sources
            },
        ),
{
    let (f, taken) = offer(front, v);
    let src = if taken {
        sources.insert(v)
    } else {
        sources
    };
    lemma_offer_facts(front, v);
    assert forall|i: int| 0 <= i < f.len() implies src.contains(#[trigger] f[i]) || exists|j: int|
        0 <= j < f.len() && beaten(f[i], #[trigger] f[j]) by {
        let e = f[i];
        assert forall|e2: ParetoValue| front.contains(e2) implies src.contains(e2) || exists|j: int|
            0 <= j < f.len() && beaten(e2, #[trigger] f[j]) by {
            let i0 = choose|i0: int| 0 <= i0 < front.len() && front[i0] == e2;
            assert(sources.contains(front[i0]) || exists|j: int|
                0 <= j < front.len() && beaten(front[i0], #[trigger] front[j]));
            if !sources.contains(e2) {
                let j = choose|j: int| 0 <= j < front.len() && beaten(front[i0], #[trigger] front[j]);
                let y = front[j];
                assert(blocks(front[j], y));
                assert(covered_by(front, y));
                assert(covered_by(f, y));
                let z = choose|z: int| 0 <= z < f.len() && #[trigger] blocks(f[z], y);
                assert(beaten(e2, f[z]));
            }
        }
        if e == v {
            if !taken {
                let k = choose|k: int| 0 <= k < f.len() && k < front.len() && #[trigger] f[k] == front[k] && blocks(front[k], v);
                if front[k] == v {
                    assert(front.contains(front[k]));
                } else {
                    assert(beaten(e, f[k]));
                }
            }
        } else {
            assert(front.contains(e));
        }
    }
}

/// A front grounded in some sources is grounded in any sources that hold them.
pub proof fn lemma_grounded_more(front: Seq<ParetoValue>, sources: Set<ParetoValue>, more: Set<ParetoValue>)
    requires
        grounded(front, sources),
        sources.subset_of(more),
    ensures
        grounded(front, more),
{
    assert forall|i: int| 0 <= i < front.len() implies more.contains(#[trigger] front[i]) || exists|j: int|
        0 <= j < front.len() && beaten(front[i], #[trigger] front[j]) by {
        if sources.contains(front[i]) {
        }
    }
}

/// In a grounded front every value is blocked by one of the sources in the front.
pub proof fn lemma_grounded_source(front: Seq<ParetoValue>, sources: Set<ParetoValue>, i: int)
    requires
        grounded(front, sources),
        0 <= i < front.len(),
    ensures
        exists|j: int| 0 <= j < front.len() && sources.contains(front[j]) && #[trigger] blocks(front[j], front[i]),
    decreases front[i].missing_progress + front[i].missing_quality,
{
    if sources.contains(front[i]) {
        assert(blocks(front[i], front[i]));
    } else {
        let j = choose|j: int| 0 <= j < front.len() && beaten(front[i], #[trigger] front[j]);
        lemma_grounded_source(front, sources, j);
        let m = choose|m: int| 0 <= m < front.len() && sources.contains(front[m]) && #[trigger] blocks(front[m], front[j]);
        assert(blocks(front[m], front[i]));
    }
}

/// The Pareto fronts of the states seen so far, one per key.
#[derive(Debug)]
pub struct ParetoFront {
    hash_map: HashMap<u128, Vec<ParetoValue>>,
}

impl View for ParetoFront {
    type V = Map<u128, Seq<ParetoValue>>;

    closed spec fn view(&self) -> Map<u128, Seq<ParetoValue>> {
        self.hash_map@.map_values(|v: Vec<ParetoValue>| v@)
    }
}

/// The front stored under `key`, empty when there is none.
pub open spec fn front_of(m: Map<u128, Seq<ParetoValue>>, key: u128) -> Seq<ParetoValue> {
    if m.contains_key(key) {
        m[key]
    } else {
        Seq::empty()
    }
}

proof fn lemma_first_blocking(front: Seq<ParetoValue>, v: ParetoValue, i: int)
    requires
        0 <= i <= front.len(),
        forall|j: int| 0 <= j < i ==> !blocks(#[trigger] front[j], v),
    ensures
        i <= first_blocking(front, v) <= front.len(),
        i < front.len() && blocks(front[i], v) ==> first_blocking(front, v) == i,
    decreases front.len(),
{
    if front.len() > 0 && i > 0 {
        assert(!blocks(front[0], v));
        lemma_first_blocking(front.drop_first(), v, i - 1);
    } else if front.len() > 0 {
        if !blocks(front[0], v) {
            lemma_first_blocking(front.drop_first(), v, 0);
        }
    }
}

proof fn lemma_first_blocking_at_most(front: Seq<ParetoValue>, v: ParetoValue, i: int)
    requires
        0 <= i < front.len(),
        blocks(front[i], v),
    ensures
        first_blocking(front, v) <= i,
    decreases i,
{
    if i > 0 && !blocks(front[0], v) {
        assert(front.drop_first()[i - 1] == front[i]);
        lemma_first_blocking_at_most(front.drop_first(), v, i - 1);
    }
}

/// A value that a front takes is in the front afterwards, and offering it again is refused.
pub proof fn lemma_offer_taken(front: Seq<ParetoValue>, v: ParetoValue)
    ensures
        offer(front, v).1 ==> offer(front, v).0.contains(v),
        offer(front, v).1 ==> !offer(offer(front, v).0, v).1,
{
    let (f, taken) = offer(front, v);
    if taken {
        assert(f[f.len() - 1] == v);
        assert(f.contains(v));
        lemma_first_blocking_at_most(f, v, f.len() - 1);
    }
}

/// A refused value leaves in the front everything that was there, in place, except values
/// that it beats.
pub proof fn lemma_offer_refused(front: Seq<ParetoValue>, v: ParetoValue)
    ensures
        !offer(front, v).1 ==> offer(front, v).0.len() == front.len(),
        !offer(front, v).1 ==> forall|i: int|
            0 <= i < front.len() && !beaten(#[trigger] front[i], v) ==> offer(front, v).0[i] == front[i],
{
    let k = first_blocking(front, v);
    lemma_first_blocking(front, v, 0);
    if k < front.len() {
        let f = offer(front, v).0;
        assert forall|i: int| 0 <= i < front.len() && !beaten(#[trigger] front[i], v) implies f[i] == front[i] by {
            if i < k {
                assert(f[i] == replace_dominated(front.take(k), v)[i]);
            } else {
                assert(f[i] == front.skip(k)[i - k]);
            }
        }
    }
}

proof fn lemma_view_insert(
    m: Map<u128, Vec<ParetoValue>>,
    key: u128,
    v: Vec<ParetoValue>,
)
    ensures
        m.remove(key).insert(key, v).map_values(|x: Vec<ParetoValue>| x@) == m.map_values(
            |x: Vec<ParetoValue>| x@,
        ).insert(key, v@),
{
    assert(m.remove(key).insert(key, v).map_values(|x: Vec<ParetoValue>| x@) =~= m.map_values(
        |x: Vec<ParetoValue>| x@,
    ).insert(key, v@));
}

fn dedup(front: Vec<ParetoValue>) -> (r: Vec<ParetoValue>)
    ensures
        r@ == dedup_seq(front@),
{
    let mut result: Vec<ParetoValue> = Vec::new();
    let mut i: usize = 0;
    while i < front.len()
        invariant
            i <= front@.len(),
            result@ == dedup_seq(front@.take(i as int)),
        decreases front@.len() - i,
    {
        assert(front@.take(i + 1).drop_last() =~= front@.take(i as int));
        let x = front[i];
        if result.len() == 0 || result[result.len() - 1] != x {
            result.push(x);
        }
        i = i + 1;
    }
    assert(front@.take(i as int) =~= front@);
    result
}

impl ParetoFront {
    pub fn new() -> (r: ParetoFront)
        ensures
            r@ == Map::<u128, Seq<ParetoValue>>::empty(),
    {
        let r = ParetoFront { hash_map: HashMap::new() };
        assert(r@ =~= Map::<u128, Seq<ParetoValue>>::empty());
        r
    }

    /// Offers the state to the front of its key; `true` when it was taken.
    pub fn insert(&mut self, state: &InProgress) -> (r: bool)
        ensures
            ({
                let key = ParetoKey::new_spec(*state).code();
                let (front, taken) = offer(
                    front_of(old(self)@, key),
                    ParetoValue::new_spec(*state),
                );
                &&& final(self)@ == old(self)@.insert(key, front)
                &&& r == taken
            }),
    {
        let key = ParetoKey::new(state).code_exec();
        let new_value = ParetoValue::new(state);
        let ghost old_view = self@;
        let ghost old_front = front_of(old_view, key);
        let mut front: Vec<ParetoValue> = match self.hash_map.remove(&key) {
            Some(f) => f,
            None => Vec::new(),
        };
        assert(front@ == old_front);
        let ghost rest = self.hash_map@;
        assert(rest == old(self).hash_map@.remove(key));
        let mut i: usize = 0;
        while i < front.len()
            invariant
                i <= front@.len(),
                front@.len() == old_front.len(),
                self.hash_map@ == rest,
                key == ParetoKey::new_spec(*state).code(),
                new_value == ParetoValue::new_spec(*state),
                rest == old(self).hash_map@.remove(key),
                old_view == old(self)@,
                old_front == front_of(old_view, key),
                forall|j: int| 0 <= j < i ==> !blocks(#[trigger] old_front[j], new_value),
                front@.take(i as int) == replace_dominated(old_front.take(i as int), new_value),
                front@.skip(i as int) == old_front.skip(i as int),
            decreases front@.len() - i,
        {
            let x = front[i];
            assert(x == old_front[i as int]) by {
                assert(front@.skip(i as int)[0] == front@[i as int]);
            }
            let ghost pre = front@;
            if is_beaten(&x, &new_value) {
                front.set(i, new_value);
            } else if is_blocking(&x, &new_value) {
                {
                    proof {
                        lemma_first_blocking(old_front, new_value, i as int);
                    }
                    self.hash_map.insert(key, front);
                    proof {
                        assert(front@ =~= replace_dominated(old_front.take(i as int), new_value)
                            + old_front.skip(i as int)) by {
                            assert(front@ =~= front@.take(i as int) + front@.skip(i as int));
                        }
                        lemma_view_insert(old(self).hash_map@, key, front);
                        assert(self.hash_map@ == old(self).hash_map@.remove(key).insert(key, front));
                        assert(self@ == old(self)@.insert(key, front@));
                        assert(first_blocking(old_front, new_value) == i);
                        assert(i < old_front.len());
                        assert(offer(old_front, new_value).1 == false);
                        assert(offer(old_front, new_value).0 == front@);
                    }
                    return false;
                }
            }
            proof {
                assert forall|j: int| 0 <= j < i + 1 implies #[trigger] front@.take(i + 1)[j]
                    == replace_dominated(old_front.take(i + 1), new_value)[j] by {
                    if j < i {
                        assert(front@.take(i as int)[j] == replace_dominated(old_front.take(i as int), new_value)[j]);
                    }
                }
                assert(front@.take(i + 1) =~= replace_dominated(old_front.take(i + 1), new_value));
                assert forall|j: int| 0 <= j < front@.len() - (i + 1) implies #[trigger] front@.skip(i + 1)[j]
                    == old_front.skip(i + 1)[j] by {
                    assert(pre.skip(i as int)[j + 1] == old_front.skip(i as int)[j + 1]);
                }
                assert(front@.skip(i + 1) =~= old_front.skip(i + 1));
            }
            i = i + 1;
        }
        proof {
            lemma_first_blocking(old_front, new_value, i as int);
            assert(front@ =~= front@.take(i as int));
            assert(old_front.take(i as int) =~= old_front);
        }
        let mut unique = dedup(front);
        unique.push(new_value);
        self.hash_map.insert(key, unique);
        proof {
            lemma_view_insert(old(self).hash_map@, key, unique);
        }
        true
    }

    /// `true` when the state's value is in the front of its key.
    pub fn has(&self, state: &InProgress) -> (r: bool)
        ensures
            r == front_of(self@, ParetoKey::new_spec(*state).code()).contains(
                ParetoValue::new_spec(*state),
            ),
    {
        let key = ParetoKey::new(state).code_exec();
        match self.hash_map.get(&key) {
            Some(front) => {
                assert(self@.contains_key(key) && self@[key] == front@);
                let new_value = ParetoValue::new(state);
                let mut i: usize = 0;
                while i < front.len()
                    invariant
                        i <= front@.len(),
                        self@.contains_key(key),
                        key == ParetoKey::new_spec(*state).code(),
                        new_value == ParetoValue::new_spec(*state),
                        self@[key] == front@,
                        forall|j: int| 0 <= j < i ==> front@[j] != new_value,
                    decreases front@.len() - i,
                {
                    if front[i] == new_value {
                        assert(front_of(self@, key) == front@);
                        assert(front@[i as int] == new_value);
                        assert(front@.contains(new_value));
                        return true;
                    }
                    i = i + 1;
                }
                false
            },
            None => {
                assert(!self@.contains_key(key));
                false
            },
        }
    }
}

} // verus!

use vstd::prelude::*;

use crate::game::units::{Progress, Quality};

verus! {

/// A point of a Pareto front: the progress and quality reachable together.
#[derive(Debug, Clone, Copy, Default, PartialEq, Eq)]
pub struct ParetoValue {
    pub progress: Progress,
    pub quality: Quality,
}

impl ParetoValue {
    pub fn new(progress: Progress, quality: Quality) -> (r: Self)
        ensures
            r == (ParetoValue { progress, quality }),
    {
        Self { progress, quality }
    }

    pub open spec fn p(self) -> int {
        self.progress.inner_value as int
    }

    pub open spec fn q(self) -> int {
        self.quality.inner_value as int
    }
}

/// The values of two fronts, walked together by decreasing progress; values of equal
/// progress are combined into one with the better quality.
pub open spec fn merge_walk(a: Seq<ParetoValue>, b: Seq<ParetoValue>) -> Seq<ParetoValue>
    decreases a.len() + b.len(),
{
    if a.len() == 0 {
        b
    } else if b.len() == 0 {
        a
    } else if a[0].p() < b[0].p() {
        seq![b[0]] + merge_walk(a, b.drop_first())
    } else if a[0].p() == b[0].p() {
        seq![
            ParetoValue {
                progress: a[0].progress,
                quality: if a[0].q() < b[0].q() {
                    b[0].quality
                } else {
                    a[0].quality
                },
            },
        ] + merge_walk(a.drop_first(), b.drop_first())
    } else {
        seq![a[0]] + merge_walk(a.drop_first(), b)
    }
}

/// The values of `s` whose quality exceeds that of every value kept before them.
pub open spec fn keep_improving(s: Seq<ParetoValue>) -> Seq<ParetoValue>
    decreases s.len(),
{
    if s.len() == 0 {
        s
    } else {
        let kept = keep_improving(s.drop_last());
        if kept.len() == 0 || kept.last().q() < s.last().q() {
            kept.push(s.last())
        } else {
            kept
        }
    }
}

/// The front that merging `a` and `b` gives.
pub open spec fn merge_fronts(a: Seq<ParetoValue>, b: Seq<ParetoValue>) -> Seq<ParetoValue> {
    keep_improving(merge_walk(a, b))
}

/// Every value of `front` gains `progress` and `quality` (saturating).
pub open spec fn shift_front(front: Seq<ParetoValue>, progress: int, quality: int) -> Seq<
    ParetoValue,
> {
    front.map_values(
        |v: ParetoValue|
            ParetoValue {
                progress: Progress {
                    inner_value: if v.p() + progress <= u32::MAX {
                        (v.p() + progress) as u32
                    } else {
                        u32::MAX
                    },
                },
                quality: Quality {
                    inner_value: if v.q() + quality <= u32::MAX {
                        (v.q() + quality) as u32
                    } else {
                        u32::MAX
                    },
                },
            },
    )
}

/// Progress never rises along `front`.
pub open spec fn is_sorted_front(front: Seq<ParetoValue>) -> bool {
    forall|i: int, j: int| 0 <= i <= j < front.len() ==> front[j].p() <= front[i].p()
}

/// Walking two sorted fronts together gives a sorted front, which starts with the larger
/// of their first progress values and is empty only when both are.
pub proof fn lemma_merge_walk_sorted(a: Seq<ParetoValue>, b: Seq<ParetoValue>)
    requires
        is_sorted_front(a),
        is_sorted_front(b),
    ensures
        is_sorted_front(merge_walk(a, b)),
        a.len() + b.len() > 0 <==> merge_walk(a, b).len() > 0,
        a.len() > 0 ==> merge_walk(a, b)[0].p() >= a[0].p(),
        b.len() > 0 ==> merge_walk(a, b)[0].p() >= b[0].p(),
        merge_walk(a, b).len() > 0 ==> (a.len() > 0 && merge_walk(a, b)[0].p() == a[0].p()) || (
        b.len() > 0 && merge_walk(a, b)[0].p() == b[0].p()),
    decreases a.len() + b.len(),
{
    if a.len() > 0 && b.len() > 0 {
        let m = merge_walk(a, b);
        if a[0].p() < b[0].p() {
            let rest = merge_walk(a, b.drop_first());
            lemma_merge_walk_sorted(a, b.drop_first());
            assert(m == seq![b[0]] + rest);
            assert forall|i: int, j: int| 0 <= i <= j < m.len() implies m[j].p() <= m[i].p() by {
                if i == 0 && j > 0 {
                    assert(m[j] == rest[j - 1]);
                    assert(rest[j - 1].p() <= rest[0].p());
                    if b.len() > 1 {
                        assert(b.drop_first()[0] == b[1]);
                    }
                } else if i > 0 {
                    assert(m[i] == rest[i - 1]);
                    assert(m[j] == rest[j - 1]);
                }
            }
        } else if a[0].p() == b[0].p() {
            let rest = merge_walk(a.drop_first(), b.drop_first());
            lemma_merge_walk_sorted(a.drop_first(), b.drop_first());
            assert forall|i: int, j: int| 0 <= i <= j < m.len() implies m[j].p() <= m[i].p() by {
                if i == 0 && j > 0 {
                    assert(m[j] == rest[j - 1]);
                    assert(rest[j - 1].p() <= rest[0].p());
                    if a.len() > 1 {
                        assert(a.drop_first()[0] == a[1]);
                    }
                    if b.len() > 1 {
                        assert(b.drop_first()[0] == b[1]);
                    }
                } else if i > 0 {
                    assert(m[i] == rest[i - 1]);
                    assert(m[j] == rest[j - 1]);
                }
            }
        } else {
            let rest = merge_walk(a.drop_first(), b);
            lemma_merge_walk_sorted(a.drop_first(), b);
            assert forall|i: int, j: int| 0 <= i <= j < m.len() implies m[j].p() <= m[i].p() by {
                if i == 0 && j > 0 {
                    assert(m[j] == rest[j - 1]);
                    assert(rest[j - 1].p() <= rest[0].p());
                    if a.len() > 1 {
                        assert(a.drop_first()[0] == a[1]);
                    }
                } else if i > 0 {
                    assert(m[i] == rest[i - 1]);
                    assert(m[j] == rest[j - 1]);
                }
            }
        }
    }
}

/// Keeping the improving values of a sorted front gives a sorted front, empty only when the
/// front is, whose values all have at least the progress of the front's last value.
pub proof fn lemma_keep_improving_sorted(s: Seq<ParetoValue>)
    requires
        is_sorted_front(s),
    ensures
        is_sorted_front(keep_improving(s)),
        s.len() > 0 <==> keep_improving(s).len() > 0,
        s.len() > 0 ==> forall|k: int|
            0 <= k < keep_improving(s).len() ==> #[trigger] keep_improving(s)[k].p() >= s.last().p(),
        s.len() > 0 ==> keep_improving(s)[0] == s[0],
    decreases s.len(),
{
    if s.len() > 0 {
        let prev = s.drop_last();
        lemma_keep_improving_sorted(prev);
        let kept = keep_improving(prev);
        if prev.len() > 0 {
            assert(prev.last() == s[s.len() - 2]);
            assert forall|k: int| 0 <= k < kept.len() implies #[trigger] kept[k].p() >= s.last().p() by {
                assert(kept[k].p() >= prev.last().p());
            }
            assert(prev[0] == s[0]);
        }
    }
}

/// Quality rises strictly along `front`.
pub open spec fn is_rising_front(front: Seq<ParetoValue>) -> bool {
    forall|i: int, j: int| 0 <= i < j < front.len() ==> front[i].q() < front[j].q()
}

/// The improving values of any sequence rise in quality.
pub proof fn lemma_keep_improving_rising(s: Seq<ParetoValue>)
    ensures
        is_rising_front(keep_improving(s)),
    decreases s.len(),
{
    if s.len() > 0 {
        let kept = keep_improving(s.drop_last());
        lemma_keep_improving_rising(s.drop_last());
        let k = keep_improving(s);
        if kept.len() == 0 || kept.last().q() < s.last().q() {
            assert forall|i: int, j: int| 0 <= i < j < k.len() implies k[i].q() < k[j].q() by {
                assert(k[i] == kept[i]);
                if j < kept.len() {
                    assert(k[j] == kept[j]);
                } else {
                    assert(kept[i].q() <= kept.last().q());
                }
            }
        }
    }
}

/// Saturating shifts keep a front sorted.
pub proof fn lemma_shift_sorted(front: Seq<ParetoValue>, progress: int, quality: int)
    requires
        is_sorted_front(front),
        progress >= 0,
    ensures
        is_sorted_front(shift_front(front, progress, quality)),
        shift_front(front, progress, quality).len() == front.len(),
{
    let shifted = shift_front(front, progress, quality);
    assert forall|i: int, j: int| 0 <= i <= j < shifted.len() implies shifted[j].p() <= shifted[i].p() by {
        assert(front[j].p() <= front[i].p());
    }
}

/// Merging two sorted fronts gives a sorted front, empty only when both are.
pub proof fn lemma_merge_sorted(a: Seq<ParetoValue>, b: Seq<ParetoValue>)
    requires
        is_sorted_front(a),
        is_sorted_front(b),
    ensures
        is_sorted_front(merge_fronts(a, b)),
        a.len() + b.len() > 0 <==> merge_fronts(a, b).len() > 0,
{
    lemma_merge_walk_sorted(a, b);
    lemma_keep_improving_sorted(merge_walk(a, b));
}

/// `x` reaches at least the progress and the quality of `y`.
pub open spec fn covers(x: ParetoValue, y: ParetoValue) -> bool {
    x.p() >= y.p() && x.q() >= y.q()
}

/// Every value of the walk comes from one of the two fronts.
proof fn lemma_merge_walk_subset(a: Seq<ParetoValue>, b: Seq<ParetoValue>)
    ensures
        forall|i: int|
            0 <= i < merge_walk(a, b).len() ==> a.contains(#[trigger] merge_walk(a, b)[i])
                || b.contains(merge_walk(a, b)[i]),
    decreases a.len() + b.len(),
{
    let m = merge_walk(a, b);
    if a.len() == 0 {
        assert forall|i: int| 0 <= i < m.len() implies a.contains(#[trigger] m[i]) || b.contains(m[i]) by {
            assert(b[i] == m[i]);
        }
    } else if b.len() == 0 {
        assert forall|i: int| 0 <= i < m.len() implies a.contains(#[trigger] m[i]) || b.contains(m[i]) by {
            assert(a[i] == m[i]);
        }
    } else {
        let (ra, rb) = if a[0].p() < b[0].p() {
            (a, b.drop_first())
        } else if a[0].p() == b[0].p() {
            (a.drop_first(), b.drop_first())
        } else {
            (a.drop_first(), b)
        };
        lemma_merge_walk_subset(ra, rb);
        let rest = merge_walk(ra, rb);
        assert forall|i: int| 0 <= i < m.len() implies a.contains(#[trigger] m[i]) || b.contains(m[i]) by {
            if i == 0 {
                if a[0].p() < b[0].p() {
                    assert(m[0] == b[0]);
                } else if a[0].p() == b[0].p() {
                    if a[0].q() < b[0].q() {
                        assert(m[0] == b[0]);
                    } else {
                        assert(m[0] == a[0]);
                    }
                } else {
                    assert(m[0] == a[0]);
                }
            } else {
                assert(m[i] == rest[i - 1]);
                let v = rest[i - 1];
                if ra.contains(v) {
                    let k = choose|k: int| 0 <= k < ra.len() && ra[k] == v;
                    if ra.len() < a.len() {
                        assert(a[k + 1] == v);
                    } else {
                        assert(a[k] == v);
                    }
                } else {
                    let k = choose|k: int| 0 <= k < rb.len() && rb[k] == v;
                    if rb.len() < b.len() {
                        assert(b[k + 1] == v);
                    } else {
                        assert(b[k] == v);
                    }
                }
            }
        }
    }
}

/// Where the value of the walk that covers value `i` of `a` (or of `b`, when not `left`)
/// stands.
spec fn walk_cover(a: Seq<ParetoValue>, b: Seq<ParetoValue>, i: int, left: bool) -> int
    decreases a.len() + b.len(),
{
    if a.len() == 0 || b.len() == 0 {
        i
    } else if a[0].p() < b[0].p() {
        if !left && i == 0 {
            0
        } else {
            1 + walk_cover(a, b.drop_first(), if left { i } else { i - 1 }, left)
        }
    } else if a[0].p() == b[0].p() {
        if i == 0 {
            0
        } else {
            1 + walk_cover(a.drop_first(), b.drop_first(), i - 1, left)
        }
    } else {
        if left && i == 0 {
            0
        } else {
            1 + walk_cover(a.drop_first(), b, if left { i - 1 } else { i }, left)
        }
    }
}

proof fn lemma_walk_cover_at(a: Seq<ParetoValue>, b: Seq<ParetoValue>, i: int, left: bool)
    requires
        0 <= i < (if left { a.len() } else { b.len() }),
    ensures
        0 <= walk_cover(a, b, i, left) < merge_walk(a, b).len(),
        covers(merge_walk(a, b)[walk_cover(a, b, i, left)], if left { a[i] } else { b[i] }),
    decreases a.len() + b.len(),
{
    let m = merge_walk(a, b);
    if a.len() == 0 || b.len() == 0 {
    } else if a[0].p() < b[0].p() {
        if !(!left && i == 0) {
            let j = if left { i } else { i - 1 };
            lemma_walk_cover_at(a, b.drop_first(), j, left);
            if !left {
                assert(b.drop_first()[j] == b[i]);
            }
        }
    } else if a[0].p() == b[0].p() {
        if i > 0 {
            lemma_walk_cover_at(a.drop_first(), b.drop_first(), i - 1, left);
            assert(a.drop_first()[i - 1] == a[i] || !left);
            assert(b.drop_first()[i - 1] == b[i] || left);
        }
    } else {
        if !(left && i == 0) {
            let j = if left { i - 1 } else { i };
            lemma_walk_cover_at(a.drop_first(), b, j, left);
            if left {
                assert(a.drop_first()[j] == a[i]);
            }
        }
    }
}

/// The improving values of a front are values of it.
proof fn lemma_keep_improving_subset(s: Seq<ParetoValue>)
    ensures
        forall|i: int| 0 <= i < keep_improving(s).len() ==> s.contains(#[trigger] keep_improving(s)[i]),
    decreases s.len(),
{
    if s.len() > 0 {
        let prev = s.drop_last();
        lemma_keep_improving_subset(prev);
        let kept = keep_improving(prev);
        let k = keep_improving(s);
        assert forall|i: int| 0 <= i < k.len() implies s.contains(#[trigger] k[i]) by {
            if i < kept.len() {
                assert(k[i] == kept[i]);
                assert(prev.contains(kept[i]));
                let m = choose|m: int| 0 <= m < prev.len() && prev[m] == kept[i];
                assert(s[m] == k[i]);
            } else {
                assert(s[s.len() - 1] == k[i]);
            }
        }
    }
}

/// Where the value of `keep_improving(s)` that covers `s[i]` stands.
spec fn cover_index(s: Seq<ParetoValue>, i: int) -> int
    decreases s.len(),
{
    if s.len() == 0 {
        0
    } else {
        let prev = s.drop_last();
        let kept = keep_improving(prev);
        if i < prev.len() {
            cover_index(prev, i)
        } else if kept.len() == 0 || kept.last().q() < s.last().q() {
            kept.len() as int
        } else {
            kept.len() - 1
        }
    }
}

proof fn lemma_keep_improving_cover_at(s: Seq<ParetoValue>, i: int)
    requires
        is_sorted_front(s),
        0 <= i < s.len(),
    ensures
        0 <= cover_index(s, i) < keep_improving(s).len(),
        covers(keep_improving(s)[cover_index(s, i)], s[i]),
    decreases s.len(),
{
    let prev = s.drop_last();
    let kept = keep_improving(prev);
    let k = keep_improving(s);
    let x = s[s.len() - 1];
    let taken = kept.len() == 0 || kept.last().q() < x.q();
    assert(k == if taken {
        kept.push(x)
    } else {
        kept
    });
    if i < prev.len() {
        assert(is_sorted_front(prev)) by {
            assert forall|a: int, b: int| 0 <= a <= b < prev.len() implies prev[b].p() <= prev[a].p() by {
                assert(prev[a] == s[a] && prev[b] == s[b]);
            }
        }
        lemma_keep_improving_cover_at(prev, i);
        let j = cover_index(prev, i);
        assert(k[j] == kept[j]);
        assert(prev[i] == s[i]);
    } else if !taken {
        lemma_keep_improving_subset(prev);
        let last = kept[kept.len() - 1];
        assert(prev.contains(last));
        let m = choose|m: int| 0 <= m < prev.len() && prev[m] == last;
        assert(s[m] == last);
        assert(s[i].p() <= s[m].p());
    }
}

/// Merging two sorted fronts gives their Pareto front: every value of the merge is a value of
/// one of them, and every value of either is covered by a value of the merge.
pub proof fn lemma_merge_is_front(a: Seq<ParetoValue>, b: Seq<ParetoValue>)
    requires
        is_sorted_front(a),
        is_sorted_front(b),
    ensures
        forall|i: int|
            0 <= i < merge_fronts(a, b).len() ==> a.contains(#[trigger] merge_fronts(a, b)[i])
                || b.contains(merge_fronts(a, b)[i]),
        forall|i: int|
            #![trigger a[i]]
            0 <= i < a.len() ==> exists|j: int|
                0 <= j < merge_fronts(a, b).len() && covers(#[trigger] merge_fronts(a, b)[j], a[i]),
        forall|i: int|
            #![trigger b[i]]
            0 <= i < b.len() ==> exists|j: int|
                0 <= j < merge_fronts(a, b).len() && covers(#[trigger] merge_fronts(a, b)[j], b[i]),
{
    let w = merge_walk(a, b);
    let m = merge_fronts(a, b);
    lemma_merge_walk_subset(a, b);
    lemma_merge_walk_sorted(a, b);
    lemma_keep_improving_subset(w);
    assert forall|i: int| 0 <= i < m.len() implies a.contains(#[trigger] m[i]) || b.contains(m[i]) by {
        let k = choose|k: int| 0 <= k < w.len() && w[k] == m[i];
        assert(a.contains(w[k]) || b.contains(w[k]));
    }
    assert forall|i: int| #![trigger a[i]] 0 <= i < a.len() implies exists|j: int| 0 <= j < m.len() && covers(#[trigger] m[j], a[i]) by {
        lemma_walk_cover_at(a, b, i, true);
        let k = walk_cover(a, b, i, true);
        lemma_keep_improving_cover_at(w, k);
        let j = cover_index(w, k);
        assert(covers(m[j], a[i]));
    }
    assert forall|i: int| #![trigger b[i]] 0 <= i < b.len() implies exists|j: int| 0 <= j < m.len() && covers(#[trigger] m[j], b[i]) by {
        lemma_walk_cover_at(a, b, i, false);
        let k = walk_cover(a, b, i, false);
        lemma_keep_improving_cover_at(w, k);
        let j = cover_index(w, k);
        assert(covers(m[j], b[i]));
    }
}

/// A stack of Pareto fronts kept end to end in one buffer; `fronts` holds where each starts.
pub struct ParetoFrontBuilder {
    buffer: Vec<ParetoValue>,
    fronts: Vec<usize>,
}

impl ParetoFrontBuilder {
    /// The starts are in order and within the buffer.
    pub closed spec fn wf(self) -> bool {
        &&& forall|i: int, j: int|
            0 <= i <= j < self.fronts@.len() ==> self.fronts@[i] <= self.fronts@[j]
        &&& forall|i: int|
            0 <= i < self.fronts@.len() ==> self.fronts@[i] <= self.buffer@.len()
    }

    /// How many values the buffer holds, over all fronts.
    pub closed spec fn stored_len(self) -> nat {
        self.buffer@.len()
    }

    /// Where front `i` ends.
    pub closed spec fn front_end(self, i: int) -> int {
        if i + 1 < self.fronts@.len() {
            self.fronts@[i + 1] as int
        } else {
            self.buffer@.len() as int
        }
    }

    /// Front `i`.
    pub closed spec fn front(self, i: int) -> Seq<ParetoValue> {
        self.buffer@.subrange(self.fronts@[i] as int, self.front_end(i))
    }

    /// The fronts, from the first started to the last.
    pub closed spec fn view_fronts(self) -> Seq<Seq<ParetoValue>> {
        Seq::new(self.fronts@.len(), |i: int| self.front(i))
    }

    pub fn new() -> (r: Self)
        ensures
            r.wf(),
            r.view_fronts() == Seq::<Seq<ParetoValue>>::empty(),
            r.stored_len() == 0,
    {
        let r = Self { buffer: Vec::new(), fronts: Vec::new() };
        assert(r.view_fronts() =~= Seq::<Seq<ParetoValue>>::empty());
        r
    }

    /// Drops every front.
    pub fn clear(&mut self)
        ensures
            final(self).wf(),
            final(self).view_fronts() == Seq::<Seq<ParetoValue>>::empty(),
    {
        self.fronts.clear();
        self.buffer.clear();
        assert(self.view_fronts() =~= Seq::<Seq<ParetoValue>>::empty());
    }

    /// Starts a new, empty front.
    pub fn start_new_front(&mut self)
        requires
            old(self).wf(),
        ensures
            final(self).wf(),
            final(self).view_fronts() == old(self).view_fronts().push(Seq::<ParetoValue>::empty()),
    {
        let ghost old_self = *self;
        self.fronts.push(self.buffer.len());
        proof {
            assert forall|i: int| 0 <= i < old_self.fronts@.len() implies self.front(i)
                == old_self.front(i) by {
                if i + 1 == old_self.fronts@.len() {
                    assert(self.fronts@[i + 1] == old_self.buffer@.len());
                }
            }
            let n = old_self.fronts@.len() as int;
            assert(self.front(n) =~= Seq::<ParetoValue>::empty());
            assert(self.view_fronts() =~= old_self.view_fronts().push(Seq::<ParetoValue>::empty()));
        }
    }
    /// Pushes `front` as a new front; an empty `front` is pushed as the single value (0, 0).
    pub fn import_front(&mut self, front: &[ParetoValue])
        requires
            old(self).wf(),
        ensures
            final(self).wf(),
            final(self).view_fronts() == old(self).view_fronts().push(
                if front@.len() == 0 {
                    seq![ParetoValue { progress: Progress { inner_value: 0 }, quality: Quality { inner_value: 0 } }]
                } else {
                    front@
                },
            ),
    {
        let ghost old_self = *self;
        let head = self.buffer.len();
        self.fronts.push(head);
        if front.len() == 0 {
            self.buffer.push(ParetoValue::new(Progress::new(0), Quality::new(0)));
        } else {
            let mut k: usize = 0;
            while k < front.len()
                invariant
                    k <= front@.len(),
                    head == old_self.buffer@.len(),
                    self.fronts@ == old_self.fronts@.push(head),
                    self.buffer@ == old_self.buffer@ + front@.take(k as int),
                decreases front@.len() - k,
            {
                self.buffer.push(front[k]);
                k = k + 1;
                assert(self.buffer@ =~= old_self.buffer@ + front@.take(k as int));
            }
            assert(front@.take(k as int) =~= front@);
        }
        proof {
            let added = if front@.len() == 0 {
                seq![ParetoValue { progress: Progress { inner_value: 0 }, quality: Quality { inner_value: 0 } }]
            } else {
                front@
            };
            assert(self.buffer@ =~= old_self.buffer@ + added);
            assert(self.buffer@.subrange(0, old_self.buffer@.len() as int) =~= old_self.buffer@);
            lemma_fronts_kept(old_self, *self);
            let n = old_self.fronts@.len() as int;
            assert(self.front(n) =~= added);
            assert(self.view_fronts() =~= old_self.view_fronts().push(added));
        }
    }

    /// Adds `progress` and `quality` (saturating) to every value of the last front.
    pub fn shift_last_front_value(&mut self, progress: Progress, quality: Quality)
        requires
            old(self).wf(),
            old(self).view_fronts().len() > 0,
        ensures
            final(self).wf(),
            final(self).view_fronts() == old(self).view_fronts().update(
                old(self).view_fronts().len() - 1,
                shift_front(
                    old(self).view_fronts().last(),
                    progress.inner_value as int,
                    quality.inner_value as int,
                ),
            ),
    {
        let ghost old_self = *self;
        let head = self.fronts[self.fronts.len() - 1];
        let mut k: usize = head;
        while k < self.buffer.len()
            invariant
                old_self.wf(),
                old_self.fronts@.len() > 0,
                head == old_self.fronts@.last(),
                head <= k <= self.buffer@.len(),
                self.fronts@ == old_self.fronts@,
                self.buffer@.len() == old_self.buffer@.len(),
                forall|m: int| 0 <= m < head ==> self.buffer@[m] == old_self.buffer@[m],
                forall|m: int| k <= m < self.buffer@.len() ==> self.buffer@[m] == old_self.buffer@[m],
                forall|m: int|
                    head <= m < k ==> self.buffer@[m] == shift_front(
                        seq![old_self.buffer@[m]],
                        progress.inner_value as int,
                        quality.inner_value as int,
                    )[0],
            decreases self.buffer@.len() - k,
        {
            let x = self.buffer[k];
            let shifted = ParetoValue::new(
                x.progress.saturating_add(progress),
                x.quality.saturating_add(quality),
            );
            self.buffer.set(k, shifted);
            k = k + 1;
        }
        proof {
            let n = old_self.fronts@.len() as int;
            assert(self.wf());
            assert forall|i: int| 0 <= i < n - 1 implies self.front(i) == old_self.front(i) by {
                assert(self.front(i) =~= old_self.front(i));
            }
            assert(self.front(n - 1) =~= shift_front(
                old_self.front(n - 1),
                progress.inner_value as int,
                quality.inner_value as int,
            ));
            assert(self.view_fronts() =~= old_self.view_fronts().update(
                n - 1,
                shift_front(
                    old_self.view_fronts().last(),
                    progress.inner_value as int,
                    quality.inner_value as int,
                ),
            ));
        }
    }

    /// Replaces the last two fronts by their merge.
    pub fn merge_last_two_fronts(&mut self)
        requires
            old(self).wf(),
            old(self).view_fronts().len() >= 2,
        ensures
            final(self).wf(),
            final(self).view_fronts() == old(self).view_fronts().take(
                old(self).view_fronts().len() - 2,
            ).push(
                merge_fronts(
                    old(self).view_fronts()[old(self).view_fronts().len() - 2],
                    old(self).view_fronts()[old(self).view_fronts().len() - 1],
                ),
            ),
    {
        let ghost old_self = *self;
        let ghost n = old_self.fronts@.len() as int;
        let head_b = self.fronts[self.fronts.len() - 1];
        self.fronts.pop();
        let head_a = self.fronts[self.fronts.len() - 1];
        let len = self.buffer.len();
        let ghost a = old_self.front(n - 2);
        let ghost b = old_self.front(n - 1);
        assert(a == self.buffer@.subrange(head_a as int, head_b as int));
        assert(b == self.buffer@.subrange(head_b as int, len as int));

        let mut c: Vec<ParetoValue> = Vec::with_capacity(len - head_a);
        let mut i: usize = head_a;
        let mut j: usize = head_b;
        let ghost mut walked: Seq<ParetoValue> = Seq::empty();
        assert(self.buffer@.subrange(i as int, head_b as int) == a);
        assert(walked + merge_walk(a, b) =~= merge_walk(a, b));
        while i < head_b && j < len
            invariant
                self.buffer@ == old_self.buffer@,
                self.fronts@ == old_self.fronts@.drop_last(),
                head_a <= i <= head_b <= j <= len,
                len == self.buffer@.len(),
                walked + merge_walk(
                    self.buffer@.subrange(i as int, head_b as int),
                    self.buffer@.subrange(j as int, len as int),
                ) == merge_walk(a, b),
                c@ == keep_improving(walked),
            decreases (head_b - i) + (len - j),
        {
            let ghost sa = self.buffer@.subrange(i as int, head_b as int);
            let ghost sb = self.buffer@.subrange(j as int, len as int);
            let x = self.buffer[i];
            let y = self.buffer[j];
            assert(sa[0] == x && sb[0] == y);
            let v: ParetoValue;
            if x.progress.inner_value < y.progress.inner_value {
                v = y;
                j = j + 1;
                assert(sb.drop_first() =~= self.buffer@.subrange(j as int, len as int));
                assert(merge_walk(sa, sb) == seq![v] + merge_walk(sa, sb.drop_first()));
            } else if x.progress.inner_value == y.progress.inner_value {
                let quality = if x.quality.inner_value < y.quality.inner_value {
                    y.quality
                } else {
                    x.quality
                };
                v = ParetoValue::new(x.progress, quality);
                i = i + 1;
                j = j + 1;
                assert(sa.drop_first() =~= self.buffer@.subrange(i as int, head_b as int));
                assert(sb.drop_first() =~= self.buffer@.subrange(j as int, len as int));
                assert(merge_walk(sa, sb) == seq![v] + merge_walk(sa.drop_first(), sb.drop_first()));
            } else {
                v = x;
                i = i + 1;
                assert(sa.drop_first() =~= self.buffer@.subrange(i as int, head_b as int));
                assert(merge_walk(sa, sb) == seq![v] + merge_walk(sa.drop_first(), sb));
            }
            proof {
                let rest = merge_walk(
                    self.buffer@.subrange(i as int, head_b as int),
                    self.buffer@.subrange(j as int, len as int),
                );
                assert(walked + (seq![v] + rest) =~= walked.push(v) + rest);
                assert(walked.push(v).drop_last() =~= walked);
                walked = walked.push(v);
            }
            if c.len() == 0 || c[c.len() - 1].quality.inner_value < v.quality.inner_value {
                c.push(v);
            }
        }
        assert(walked + self.buffer@.subrange(i as int, head_b as int) + self.buffer@.subrange(
            j as int,
            len as int,
        ) =~= merge_walk(a, b)) by {
            let sa = self.buffer@.subrange(i as int, head_b as int);
            let sb = self.buffer@.subrange(j as int, len as int);
            if sa.len() == 0 {
                assert(sa + sb =~= sb);
                assert(walked + sa =~= walked);
            } else {
                assert(sb.len() == 0);
                assert(walked + sa + sb =~= walked + sa);
            }
        }
        while i < head_b
            invariant
                self.buffer@ == old_self.buffer@,
                self.fronts@ == old_self.fronts@.drop_last(),
                head_a <= i <= head_b <= j <= len,
                len == self.buffer@.len(),
                walked + self.buffer@.subrange(i as int, head_b as int) + self.buffer@.subrange(
                    j as int,
                    len as int,
                ) == merge_walk(a, b),
                c@ == keep_improving(walked),
            decreases head_b - i,
        {
            let v = self.buffer[i];
            proof {
                let sa = self.buffer@.subrange(i as int, head_b as int);
                let sb = self.buffer@.subrange(j as int, len as int);
                assert(sa[0] == v);
                assert(walked + sa + sb =~= walked.push(v) + self.buffer@.subrange(
                    i + 1,
                    head_b as int,
                ) + sb);
                assert(walked.push(v).drop_last() =~= walked);
                walked = walked.push(v);
            }
            i = i + 1;
            if c.len() == 0 || c[c.len() - 1].quality.inner_value < v.quality.inner_value {
                c.push(v);
            }
        }
        while j < len
            invariant
                self.buffer@ == old_self.buffer@,
                self.fronts@ == old_self.fronts@.drop_last(),
                head_a <= i <= head_b <= j <= len,
                i == head_b,
                len == self.buffer@.len(),
                walked + self.buffer@.subrange(i as int, head_b as int) + self.buffer@.subrange(
                    j as int,
                    len as int,
                ) == merge_walk(a, b),
                c@ == keep_improving(walked),
            decreases len - j,
        {
            let v = self.buffer[j];
            proof {
                let sa = self.buffer@.subrange(i as int, head_b as int);
                let sb = self.buffer@.subrange(j as int, len as int);
                assert(sb[0] == v);
                assert(walked + sa + sb =~= walked.push(v) + sa + self.buffer@.subrange(
                    j + 1,
                    len as int,
                ));
                assert(walked.push(v).drop_last() =~= walked);
                walked = walked.push(v);
            }
            j = j + 1;
            if c.len() == 0 || c[c.len() - 1].quality.inner_value < v.quality.inner_value {
                c.push(v);
            }
        }
        assert(walked =~= merge_walk(a, b)) by {
            assert(self.buffer@.subrange(i as int, head_b as int) =~= Seq::<ParetoValue>::empty());
            assert(self.buffer@.subrange(j as int, len as int) =~= Seq::<ParetoValue>::empty());
        }

        // the merged front replaces both fronts in the buffer
        self.buffer.truncate(head_a);
        let ghost merged = c@;
        self.buffer.append(&mut c);
        assert(self.buffer@ =~= old_self.buffer@.subrange(0, head_a as int) + merged);
        proof {
            assert(self.fronts@ =~= old_self.fronts@.take(n - 1));
            assert(head_a == old_self.fronts@[n - 2]);
            assert(self.wf());
            assert forall|m: int| 0 <= m < n - 2 implies self.front(m) == old_self.front(m) by {
                assert(self.fronts@[m] == old_self.fronts@[m]);
                assert(self.fronts@[m + 1] == old_self.fronts@[m + 1]);
                assert(self.front(m) =~= old_self.front(m));
            }
            assert(self.front(n - 2) =~= merged);
            assert(self.view_fronts() =~= old_self.view_fronts().take(n - 2).push(
                merge_fronts(old_self.view_fronts()[n - 2], old_self.view_fronts()[n - 1]),
            ));
        }
    }

    /// The last front, as a vector.
    pub fn finalize(&self) -> (r: Vec<ParetoValue>)
        requires
            self.wf(),
            self.view_fronts().len() > 0,
        ensures
            r@ == self.view_fronts().last(),
    {
        let head = self.fronts[self.fronts.len() - 1];
        let mut result: Vec<ParetoValue> = Vec::with_capacity(self.buffer.len() - head);
        let mut k: usize = head;
        while k < self.buffer.len()
            invariant
                head == self.fronts@.last(),
                head <= k <= self.buffer@.len(),
                result@ == self.buffer@.subrange(head as int, k as int),
            decreases self.buffer@.len() - k,
        {
            result.push(self.buffer[k]);
            k = k + 1;
            assert(result@ =~= self.buffer@.subrange(head as int, k as int));
        }
        result
    }
}

/// Appending to the buffer and starting a front at the old end keeps the existing fronts.
proof fn lemma_fronts_kept(old_b: ParetoFrontBuilder, new_b: ParetoFrontBuilder)
    requires
        old_b.wf(),
        new_b.buffer@.len() >= old_b.buffer@.len(),
        new_b.buffer@.subrange(0, old_b.buffer@.len() as int) == old_b.buffer@,
        new_b.fronts@ == old_b.fronts@.push(old_b.buffer.len()),
    ensures
        new_b.wf(),
        forall|i: int| 0 <= i < old_b.fronts@.len() ==> new_b.front(i) == old_b.front(i),
{
    let n = old_b.fronts@.len() as int;
    assert(new_b.fronts@[n] == old_b.buffer@.len());
    assert forall|i: int, j: int|
        0 <= i <= j < new_b.fronts@.len() implies new_b.fronts@[i] <= new_b.fronts@[j] by {
        if j < n {
            assert(new_b.fronts@[j] == old_b.fronts@[j]);
        }
    }
    assert forall|i: int| 0 <= i < new_b.fronts@.len() implies new_b.fronts@[i] <= new_b.buffer@.len() by {
        if i < n {
            assert(new_b.fronts@[i] == old_b.fronts@[i]);
        }
    }
    assert forall|i: int| 0 <= i < old_b.fronts@.len() implies new_b.front(i) == old_b.front(i) by {
        assert(new_b.fronts@[i] == old_b.fronts@[i]);
        if i + 1 == old_b.fronts@.len() {
            assert(new_b.fronts@[i + 1] == old_b.buffer@.len());
        }
        assert(new_b.front(i) =~= old_b.front(i)) by {
            assert forall|m: int| 0 <= m < old_b.buffer@.len() implies new_b.buffer@[m] == old_b.buffer@[m] by {
                assert(new_b.buffer@.subrange(0, old_b.buffer@.len() as int)[m] == new_b.buffer@[m]);
            }
        }
    }
}

} // verus!

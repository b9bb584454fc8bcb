//! What holds of the layout engine as a whole.
use vstd::prelude::*;

use crate::element::{Alignments, Axis, Dimension, Dimensions, PointerCoordinate, Position, Size, SizeError, TextPlacement};
use crate::renderer::ElementRectangle;
use crate::model::or_zero;
use crate::model::{at_most, increasing_below, lemma_share, same_shape, ElementModel};

verus! {

/// The sum of the sizes in `dimension` of the first `k` elements of `cs`.
pub open spec fn total_size<M>(cs: Seq<ElementModel<M>>, dimension: Dimension, k: int) -> int
    decreases k,
{
    if k <= 0 || k > cs.len() {
        0
    } else {
        total_size(cs, dimension, k - 1) + cs[k - 1].size_in(dimension)
    }
}

proof fn lemma_total_update<M>(s: Seq<ElementModel<M>>, dimension: Dimension, x: int, v: ElementModel<M>, k: int)
    requires
        0 <= x < s.len(),
        0 <= k <= s.len(),
    ensures
        total_size(s.update(x, v), dimension, k) == total_size(s, dimension, k) + if x < k {
            v.size_in(dimension) - s[x].size_in(dimension)
        } else {
            0
        },
    decreases k,
{
    if k > 0 {
        lemma_total_update(s, dimension, x, v, k - 1);
    }
}

proof fn lemma_resize_total<M>(cs: Seq<ElementModel<M>>, dimension: Dimension, chosen: Seq<usize>, change: int)
    requires
        cs.len() <= usize::MAX,
        increasing_below(chosen, cs.len() as int),
        forall|p: int| 0 <= p < chosen.len() ==> 0 <= #[trigger] cs[chosen[p] as int].size_in(dimension) + change <= u64::MAX,
    ensures
        total_size(ElementModel::resize_chosen(cs, dimension, chosen, change), dimension, cs.len() as int)
            == total_size(cs, dimension, cs.len() as int) + change * chosen.len(),
        same_shape(cs, ElementModel::resize_chosen(cs, dimension, chosen, change)),
    decreases chosen.len(),
{
    let n = cs.len() as int;
    if chosen.len() == 0 {
        assert(ElementModel::resize_chosen(cs, dimension, chosen, change) =~= cs);
    } else {
        let rest = chosen.drop_last();
        let x = chosen.last() as int;
        lemma_resize_total(cs, dimension, rest, change);
        let before = ElementModel::resize_chosen(cs, dimension, rest, change);
        let grown = cs[x].with_size(dimension, cs[x].size_in(dimension) + change);
        assert(!rest.contains(x as usize)) by {
            if rest.contains(x as usize) {
                let p = choose|p: int| 0 <= p < rest.len() && rest[p] == x as usize;
                assert(chosen[p] < chosen[chosen.len() - 1]);
            }
        }
        assert(ElementModel::resize_chosen(cs, dimension, chosen, change) =~= before.update(x, grown)) by {
            assert forall|i: int| 0 <= i < n implies #[trigger] ElementModel::resize_chosen(cs, dimension, chosen, change)[i]
                == before.update(x, grown)[i] by {
                if i != x {
                    if chosen.contains(i as usize) {
                        let p = choose|p: int| 0 <= p < chosen.len() && chosen[p] == i as usize;
                        assert(rest[p] == i as usize);
                    }
                    if rest.contains(i as usize) {
                        let p = choose|p: int| 0 <= p < rest.len() && rest[p] == i as usize;
                        assert(chosen[p] == i as usize);
                    }
                } else {
                    assert(chosen[chosen.len() - 1] == x as usize);
                }
            }
        }
        lemma_total_update(before, dimension, x, grown, n);
        assert(change * chosen.len() == change * rest.len() + change) by (nonlinear_arith)
            requires
                chosen.len() == rest.len() + 1;
    }
}

/// Whether `after` is `before`, or `before` grown in `dimension` as a
/// growable child, to no more than its maximum.
pub open spec fn grew_from<M>(before: ElementModel<M>, after: ElementModel<M>, dimension: Dimension) -> bool {
    ||| after == before
    ||| {
        &&& before.size.at(dimension) is Grow
        &&& before.size_in(dimension) < after.size_in(dimension)
        &&& after == before.with_size(dimension, after.size_in(dimension))
        &&& before.maximum_size(dimension) matches Some(m) ==> after.size_in(dimension) <= m
    }
}

/// Whether `after` is `before`, or `before` shrunk in `dimension` as a
/// fitting child, to no less than its minimum.
pub open spec fn shrank_from<M>(before: ElementModel<M>, after: ElementModel<M>, dimension: Dimension) -> bool {
    ||| after == before
    ||| {
        &&& (before.size.at(dimension) is Fit || before.size.at(dimension) is FitText)
        &&& after.size_in(dimension) < before.size_in(dimension)
        &&& after == before.with_size(dimension, after.size_in(dimension))
        &&& after.size_in(dimension) >= before.minimum_size(dimension)
    }
}

#[verifier::spinoff_prover]
proof fn lemma_grow_round<M>(cs: Seq<ElementModel<M>>, dimension: Dimension, fit: int, target: int)
    requires
        cs.len() <= usize::MAX,
        0 <= fit < target <= u64::MAX,
        ElementModel::grow_ready(cs, dimension, fit),
        ElementModel::growable(cs, dimension, cs.len() as int).len() > 0,
    ensures
        ({
            let (next, next_fit) = ElementModel::grow_round(cs, dimension, fit, target);
            &&& fit < next_fit <= target
            &&& ElementModel::grow_ready(next, dimension, next_fit)
            &&& same_shape(cs, next)
            &&& next_fit - fit == total_size(next, dimension, cs.len() as int) - total_size(cs, dimension, cs.len() as int)
            &&& forall|i: int| 0 <= i < cs.len() ==> grew_from(cs[i], #[trigger] next[i], dimension)
        }),
{
    let n = cs.len() as int;
    let idx = ElementModel::growable(cs, dimension, n);
    ElementModel::lemma_growable(cs, dimension, n);
    assert forall|j: int| 0 <= j < idx.len() implies (#[trigger] cs[idx[j] as int]).size_in(dimension) < u64::MAX by {
        assert(cs[idx[j] as int].can_grow(dimension));
    }
    ElementModel::lemma_grow_bounds(cs, dimension, idx, idx.len() as int);
    let (smallest, second) = ElementModel::grow_bounds(cs, dimension, idx, idx.len() as int);
    let level = ElementModel::sized_at(cs, dimension, idx, smallest, idx.len() as int);
    ElementModel::lemma_sized_at(cs, dimension, idx, smallest, idx.len() as int);
    let room = target - fit;
    let chosen = at_most(level, room);
    let len = chosen.len() as int;
    let share = room / len;
    let amount = if share < second - smallest { share } else { second - smallest };
    lemma_share(room, len);
    assert(amount * len <= share * len) by (nonlinear_arith)
        requires
            amount <= share,
            len >= 1;
    assert(amount <= amount * len) by (nonlinear_arith)
        requires
            len >= 1, amount >= 1;
    assert forall|p: int| 0 <= p < chosen.len() implies {
        let c = #[trigger] cs[chosen[p] as int];
        &&& c.can_grow(dimension)
        &&& c.size_in(dimension) == smallest
        &&& c.maximum_size(dimension) matches Some(m) ==> second <= m
    } by {
        assert(chosen[p] == level[p]);
        let j = choose|j: int| 0 <= j < idx.len() && idx[j] == level[p];
        assert(cs[idx[j] as int].can_grow(dimension));
        assert(cs[idx[j] as int].maximum_size(dimension) matches Some(m) ==> second <= m);
    }
    assert(increasing_below(chosen, n));
    lemma_resize_total(cs, dimension, chosen, amount);
    let next = ElementModel::resize_chosen(cs, dimension, chosen, amount);
    let w = choose|w: int| 0 <= w < idx.len() && cs[idx[w] as int].size_in(dimension) == smallest;
    assert(cs[idx[w] as int].can_grow(dimension));
    assert forall|i: int| 0 <= i < n implies grew_from(cs[i], #[trigger] next[i], dimension) by {
        if chosen.contains(i as usize) {
            let p = choose|p: int| 0 <= p < chosen.len() && chosen[p] == i as usize;
            assert(cs[chosen[p] as int].can_grow(dimension));
        }
    }
    assert(ElementModel::grow_ready(next, dimension, fit + amount * len)) by {
        assert forall|i: int| 0 <= i < n && (#[trigger] next[i]).size.at(dimension) is Grow
            implies next[i].assigned_size.at(dimension) is Some && next[i].size_in(dimension) <= fit + amount * len by {
            if chosen.contains(i as usize) {
                let p = choose|p: int| 0 <= p < chosen.len() && chosen[p] == i as usize;
                assert(cs[chosen[p] as int].size_in(dimension) == smallest);
            }
        }
    }
}

proof fn lemma_shrink_round<M>(cs: Seq<ElementModel<M>>, dimension: Dimension, fit: int, target: int)
    requires
        cs.len() <= usize::MAX,
        0 <= target < fit <= u64::MAX,
        ElementModel::shrink_ready(cs, dimension),
        ElementModel::shrinkable(cs, dimension, cs.len() as int).len() > 0,
        ElementModel::shrink_round_fits(cs, dimension, fit, target),
    ensures
        ({
            let (next, next_fit) = ElementModel::shrink_round(cs, dimension, fit, target);
            &&& target <= next_fit < fit
            &&& ElementModel::shrink_ready(next, dimension)
            &&& same_shape(cs, next)
            &&& fit - next_fit == total_size(cs, dimension, cs.len() as int) - total_size(next, dimension, cs.len() as int)
            &&& forall|i: int| 0 <= i < cs.len() ==> shrank_from(cs[i], #[trigger] next[i], dimension)
        }),
{
    let n = cs.len() as int;
    let idx = ElementModel::shrinkable(cs, dimension, n);
    ElementModel::lemma_shrinkable(cs, dimension, n);
    ElementModel::lemma_shrink_bounds(cs, dimension, idx, idx.len() as int);
    let (largest, second) = ElementModel::shrink_bounds(cs, dimension, idx, idx.len() as int);
    let level = ElementModel::sized_at(cs, dimension, idx, largest, idx.len() as int);
    ElementModel::lemma_sized_at(cs, dimension, idx, largest, idx.len() as int);
    let room = fit - target;
    let chosen = level;
    let len = chosen.len() as int;
    let share = room / len;
    let amount = if share < largest - second { share } else { largest - second };
    lemma_share(room, len);
    assert(amount * len <= share * len) by (nonlinear_arith)
        requires
            amount <= share,
            len >= 1;
    assert(amount <= amount * len) by (nonlinear_arith)
        requires
            len >= 1, amount >= 1;
    assert forall|p: int| 0 <= p < chosen.len() implies {
        let c = #[trigger] cs[chosen[p] as int];
        &&& c.can_shrink(dimension)
        &&& c.size_in(dimension) == largest
        &&& second >= c.minimum_size(dimension)
    } by {
        assert(chosen[p] == level[p]);
        let j = choose|j: int| 0 <= j < idx.len() && idx[j] == level[p];
        assert(cs[idx[j] as int].can_shrink(dimension));
        assert(second >= cs[idx[j] as int].minimum_size(dimension));
    }
    assert(increasing_below(chosen, n));
    lemma_resize_total(cs, dimension, chosen, -amount);
    assert((-amount) * len == -(amount * len)) by (nonlinear_arith);
    let next = ElementModel::resize_chosen(cs, dimension, chosen, -amount);
    assert forall|i: int| 0 <= i < n implies shrank_from(cs[i], #[trigger] next[i], dimension) by {
        if chosen.contains(i as usize) {
            let p = choose|p: int| 0 <= p < chosen.len() && chosen[p] == i as usize;
            assert(cs[chosen[p] as int].can_shrink(dimension));
        }
    }
    assert(ElementModel::shrink_ready(next, dimension)) by {
        assert forall|i: int| 0 <= i < n && ((#[trigger] next[i]).size.at(dimension) is Fit
            || next[i].size.at(dimension) is FitText) implies next[i].assigned_size.at(dimension) is Some by {
            if chosen.contains(i as usize) {
                let p = choose|p: int| 0 <= p < chosen.len() && chosen[p] == i as usize;
                assert(cs[chosen[p] as int].can_shrink(dimension));
            }
        }
    }
}

/// Growing the children of an element toward `target`: each child either
/// stays as it was or, being growable, grows to no more than its maximum; the
/// recorded fit size grows by exactly what the children grew together; it
/// never passes the target; and it stops short of the target only when no
/// child can grow any more.
pub proof fn law_grow<M>(cs: Seq<ElementModel<M>>, dimension: Dimension, fit: int, target: int)
    requires
        cs.len() <= usize::MAX,
        0 <= fit <= target <= u64::MAX,
        ElementModel::grow_ready(cs, dimension, fit),
    ensures
        ({
            let (grown, grown_fit) = ElementModel::grow(cs, dimension, fit, target);
            &&& same_shape(cs, grown)
            &&& fit <= grown_fit <= target
            &&& grown_fit - fit == total_size(grown, dimension, cs.len() as int) - total_size(cs, dimension, cs.len() as int)
            &&& forall|i: int| 0 <= i < cs.len() ==> grew_from(cs[i], #[trigger] grown[i], dimension)
            &&& grown_fit < target ==> ElementModel::growable(grown, dimension, cs.len() as int).len() == 0
        }),
    decreases target - fit,
{
    let n = cs.len() as int;
    if fit >= target || ElementModel::growable(cs, dimension, n).len() == 0 {
    } else {
        lemma_grow_round(cs, dimension, fit, target);
        let (next, next_fit) = ElementModel::grow_round(cs, dimension, fit, target);
        if !(next_fit <= fit || next_fit >= target) {
            law_grow(next, dimension, next_fit, target);
            let (grown, grown_fit) = ElementModel::grow(next, dimension, next_fit, target);
            assert forall|i: int| 0 <= i < n implies grew_from(cs[i], #[trigger] grown[i], dimension) by {
                assert(grew_from(cs[i], next[i], dimension));
                assert(grew_from(next[i], grown[i], dimension));
                if grown[i] != next[i] && next[i] != cs[i] {
                    assert(cs[i].assigned_size.with(dimension, Some(next[i].size_in(dimension) as u64)).with(
                        dimension, Some(grown[i].size_in(dimension) as u64))
                        == cs[i].assigned_size.with(dimension, Some(grown[i].size_in(dimension) as u64)));
                }
            }
        }
    }
}

/// Shrinking the children of an element toward `target`: each child either
/// stays as it was or, fitting its content, shrinks to no less than its
/// minimum; the recorded fit size shrinks by exactly what the children shrank
/// together; it never passes the target; and, where it does not stall, it
/// stops short of the target only when no child can shrink any more.
pub proof fn law_shrink<M>(cs: Seq<ElementModel<M>>, dimension: Dimension, fit: int, target: int)
    requires
        cs.len() <= usize::MAX,
        0 <= target <= fit <= u64::MAX,
        ElementModel::shrink_ready(cs, dimension),
        !ElementModel::shrink_stalls(cs, dimension, fit, target),
    ensures
        ({
            let (shrunk, shrunk_fit) = ElementModel::shrink(cs, dimension, fit, target);
            &&& same_shape(cs, shrunk)
            &&& target <= shrunk_fit <= fit
            &&& fit - shrunk_fit == total_size(cs, dimension, cs.len() as int) - total_size(shrunk, dimension, cs.len() as int)
            &&& forall|i: int| 0 <= i < cs.len() ==> shrank_from(cs[i], #[trigger] shrunk[i], dimension)
            &&& shrunk_fit > target ==> ElementModel::shrinkable(shrunk, dimension, cs.len() as int).len() == 0
        }),
    decreases fit - target,
{
    let n = cs.len() as int;
    if fit <= target || ElementModel::shrinkable(cs, dimension, n).len() == 0 {
    } else {
        lemma_shrink_round(cs, dimension, fit, target);
        let (next, next_fit) = ElementModel::shrink_round(cs, dimension, fit, target);
        if !(next_fit >= fit || next_fit <= target) {
            law_shrink(next, dimension, next_fit, target);
            let (shrunk, shrunk_fit) = ElementModel::shrink(next, dimension, next_fit, target);
            assert forall|i: int| 0 <= i < n implies shrank_from(cs[i], #[trigger] shrunk[i], dimension) by {
                assert(shrank_from(cs[i], next[i], dimension));
                assert(shrank_from(next[i], shrunk[i], dimension));
                if shrunk[i] != next[i] && next[i] != cs[i] {
                    assert(cs[i].assigned_size.with(dimension, Some(next[i].size_in(dimension) as u64)).with(
                        dimension, Some(shrunk[i].size_in(dimension) as u64))
                        == cs[i].assigned_size.with(dimension, Some(shrunk[i].size_in(dimension) as u64)));
                }
            }
        }
    }
}

/// Sizing the children along an element's direction: each child stays, or
/// grows as a growable child, or shrinks as a fitting child; nothing else in
/// the element changes but its recorded fit size. On success the children
/// fill the element exactly, or less where no child can grow any more. It
/// fails only where the children overflow and no child can shrink any more.
/// The recorded fit size changes by exactly what the children changed
/// together, except for the width of a text element, which takes its
/// assigned width.
pub proof fn law_along_step<M>(e: ElementModel<M>, dimension: Dimension)
    requires
        e.children.len() <= usize::MAX,
        e.along_ready(dimension),
    ensures
        ({
            let (stepped, r) = e.along_step(dimension);
            let n = e.children.len() as int;
            &&& same_shape(e.children, stepped.children)
            &&& stepped == e.with_children_fit(stepped.children, dimension, stepped.fit_in(dimension))
            &&& forall|i: int| 0 <= i < n ==> grew_from(e.children[i], #[trigger] stepped.children[i], dimension)
                || shrank_from(e.children[i], stepped.children[i], dimension)
            &&& r is Ok ==> stepped.fit_in(dimension) == e.assigned_in(dimension) || (stepped.fit_in(dimension)
                < e.assigned_in(dimension) && ElementModel::growable(stepped.children, dimension, n).len() == 0)
            &&& r is Err ==> r == Err::<(), SizeError>(SizeError::CantShrinkChildren(1)) && stepped.fit_in(dimension)
                > e.assigned_in(dimension) && ElementModel::shrinkable(stepped.children, dimension, n).len() == 0
            &&& stepped.fit_in(dimension) - e.fit_in(dimension) == total_size(stepped.children, dimension, n)
                - total_size(e.children, dimension, n) || (dimension == Dimension::Width
                && e.size.at(dimension) is FitText && stepped.fit_in(dimension) == e.assigned_in(dimension))
        }),
{
    let target = e.assigned_in(dimension);
    let fit = e.fit_in(dimension);
    let n = e.children.len() as int;
    if target > fit {
        law_grow(e.children, dimension, fit, target);
    } else if target < fit {
        law_shrink(e.children, dimension, fit, target);
    } else {
        assert(e.with_children_fit(e.children, dimension, fit) =~= e);
        assert forall|i: int| 0 <= i < n implies grew_from(e.children[i], #[trigger] e.children[i], dimension) by {}
    }
}

proof fn lemma_across_children<M>(cs: Seq<ElementModel<M>>, dimension: Dimension, available: int, k: int)
    requires
        0 <= k <= cs.len(),
        available <= u64::MAX,
    ensures
        ({
            let (sized, r) = ElementModel::across_children(cs, dimension, available, k);
            &&& r is Ok ==> forall|i: int| 0 <= i < k ==> (#[trigger] sized[i]).size_in(dimension) <= available
            &&& r is Err <==> exists|i: int| 0 <= i < k && (#[trigger] cs[i].across_child(dimension, available)) is Err
        }),
    decreases k,
{
    if k > 0 {
        lemma_across_children(cs, dimension, available, k - 1);
        ElementModel::lemma_across_shape(cs, dimension, available, k - 1);
        let (prev, r) = ElementModel::across_children(cs, dimension, available, k - 1);
        let (sized, r2) = ElementModel::across_children(cs, dimension, available, k);
        if r is Ok {
            assert(prev[k - 1] == cs[k - 1]);
            match cs[k - 1].across_child(dimension, available) {
                Ok(v) => {
                    assert(0 <= v <= available);
                    assert forall|i: int| 0 <= i < k implies (#[trigger] sized[i]).size_in(dimension) <= available by {
                        if i < k - 1 {
                            assert(sized[i] == prev[i]);
                        }
                    }
                },
                Err(_) => {},
            }
            assert(forall|i: int| 0 <= i < k - 1 ==> !(#[trigger] cs[i].across_child(dimension, available) is Err));
        }
    }
}

/// Sizing the children across an element's direction fails exactly where a
/// child cannot be made to fit in the element's inner space; where it
/// succeeds, every child fits in that space.
pub proof fn law_across_step<M>(e: ElementModel<M>, dimension: Dimension)
    requires
        e.across_ready(dimension),
    ensures
        ({
            let (stepped, r) = e.across_step(dimension);
            &&& same_shape(e.children, stepped.children)
            &&& r is Err <==> exists|i: int| 0 <= i < e.children.len()
                && (#[trigger] e.children[i].across_child(dimension, e.available_in(dimension))) is Err
            &&& r is Ok ==> forall|i: int| 0 <= i < e.children.len()
                ==> (#[trigger] stepped.children[i]).size_in(dimension) <= e.available_in(dimension)
        }),
{
    let avail = e.available_in(dimension);
    let n = e.children.len() as int;
    ElementModel::lemma_across_shape(e.children, dimension, avail, n);
    lemma_across_children(e.children, dimension, avail, n);
}

/// The size an element is assigned when measured is never above its maximum,
/// never below its minimum unless the maximum is, and is what it needs
/// wherever that lies within the bounds.
pub proof fn law_fit_within_bounds<M>(e: ElementModel<M>, dimension: Dimension)
    ensures
        e.maximum_size(dimension) matches Some(m) ==> e.fit_size(dimension) <= m,
        (e.maximum_size(dimension) matches Some(m) ==> e.minimum_size(dimension) <= m) ==> e.fit_size(dimension)
            >= e.minimum_size(dimension),
        (e.minimum_size(dimension) <= e.fit_measured(dimension) && (e.maximum_size(dimension) matches Some(m)
            ==> e.fit_measured(dimension) <= m)) ==> e.fit_size(dimension) == e.fit_measured(dimension),
{
}

proof fn lemma_fitted_measures<M>(e: ElementModel<M>, dimension: Dimension)
    ensures
        e.fitted(dimension).fit_measured(dimension) == e.fit_measured(dimension),
        e.fitted(dimension).fit_size(dimension) == e.fit_size(dimension),
        e.fitted(dimension).fit_content(dimension) == e.fit_content(dimension),
    decreases e, 2int,
{
    let n = e.children.len() as int;
    lemma_fitted_sums(e.children, e.fitted(dimension).children, dimension, n);
}

proof fn lemma_fitted_sums<M>(s: Seq<ElementModel<M>>, t: Seq<ElementModel<M>>, dimension: Dimension, k: int)
    requires
        s.len() == t.len(),
        0 <= k <= s.len(),
        forall|i: int| 0 <= i < s.len() ==> #[trigger] t[i] == s[i].fitted(dimension),
    ensures
        ElementModel::fit_sum(t, dimension, k) == ElementModel::fit_sum(s, dimension, k),
        ElementModel::fit_max(t, dimension, k) == ElementModel::fit_max(s, dimension, k),
    decreases s, k,
{
    if k > 0 {
        lemma_fitted_sums(s, t, dimension, k - 1);
        lemma_fitted_measures(s[k - 1], dimension);
    }
}

/// Measuring a tree a second time changes nothing: what an element needs
/// depends on its settings and its children's needs, not on earlier results.
pub proof fn law_fit_idempotent<M>(e: ElementModel<M>, dimension: Dimension)
    ensures
        e.fitted(dimension).fitted(dimension) == e.fitted(dimension),
    decreases e,
{
    let f = e.fitted(dimension);
    lemma_fitted_measures(e, dimension);
    assert forall|i: int| 0 <= i < e.children.len() implies #[trigger] f.fitted(dimension).children[i] == f.children[i] by {
        law_fit_idempotent(e.children[i], dimension);
    }
    assert(f.fitted(dimension).children =~= f.children);
    assert(f.fitted(dimension) =~= f);
}

/// Along an element's direction, each child starts where the one before it
/// ends, one gap further on; the first starts at the element's first offset.
pub proof fn law_children_follow_one_another<M>(e: ElementModel<M>, position: Position, i: int)
    requires
        e.place_ok(position),
        0 <= i < e.children.len(),
    ensures
        ({
            let axis = Axis::of_dimension(e.along());
            let along = or_zero(position.at(axis));
            &&& i == 0 ==> or_zero(e.child_position(position, i).at(axis)) == along + e.first_offset()
            &&& i + 1 < e.children.len() ==> or_zero(e.child_position(position, i + 1).at(axis))
                == or_zero(e.child_position(position, i).at(axis)) + e.children[i].size_in(e.along()) + e.child_gaps
        }),
{
    let d = e.along();
    let axis = Axis::of_dimension(d);
    assert(Axis::of_dimension(d.spec_opposite()) != axis);
    lemma_offsets_grow(e, i);
    assert(e.child_place_ok(position, i));
    assert(or_zero(e.child_position(position, i).at(axis)) == e.offset_after(i) + or_zero(position.at(axis))) by {
        if d == Dimension::Width {
        } else {
        }
    }
    if i + 1 < e.children.len() {
        assert(e.child_place_ok(position, i + 1));
        assert(or_zero(e.child_position(position, i + 1).at(axis)) == e.offset_after(i + 1) + or_zero(position.at(axis))) by {
            if d == Dimension::Width {
            } else {
            }
        }
        assert(e.offset_after(i + 1) == e.offset_after(i) + e.children[i].size_in(d) + e.child_gaps);
    }
}

proof fn lemma_offsets_grow<M>(e: ElementModel<M>, k: int)
    ensures
        e.offset_after(k) >= e.first_offset(),
    decreases k,
{
    if 0 < k <= e.children.len() {
        lemma_offsets_grow(e, k - 1);
    }
}

proof fn lemma_placed_offsets<M>(e: ElementModel<M>, position: Position, k: int)
    ensures
        e.placed(position).offset_after(k) == e.offset_after(k),
    decreases k,
{
    let p = e.placed(position);
    assert(p.first_offset() == e.first_offset());
    if 0 < k <= e.children.len() {
        lemma_placed_offsets(e, position, k - 1);
        let c = e.children[k - 1];
        assert(p.children[k - 1] == c.placed(e.child_position(position, k - 1)));
        assert(p.children[k - 1].assigned_size == c.assigned_size);
    }
}

/// Placing a tree a second time at the same position changes nothing:
/// placing reads only sizes and settings, which it leaves as they are.
pub proof fn law_placed_idempotent<M>(e: ElementModel<M>, position: Position)
    ensures
        e.placed(position).placed(position) == e.placed(position),
    decreases e,
{
    let p = e.placed(position);
    assert forall|i: int| 0 <= i < e.children.len() implies #[trigger] p.placed(position).children[i] == p.children[i] by {
        assert forall|k: int| p.offset_after(k) == e.offset_after(k) by {
            lemma_placed_offsets(e, position, k);
        }
        assert(p.child_excess_across(i) == e.child_excess_across(i)) by {
            assert(p.children[i] == e.children[i].placed(e.child_position(position, i)));
            assert(p.children[i].assigned_size == e.children[i].assigned_size);
        }
        assert(p.child_position(position, i) == e.child_position(position, i));
        law_placed_idempotent(e.children[i], e.child_position(position, i));
    }
    assert(p.placed(position).children =~= p.children);
    assert(p.placed(position) =~= p);
}

/// The number of elements in the tree.
pub open spec fn node_count<M>(e: ElementModel<M>) -> int
    decreases e, 1int,
{
    1 + node_count_of(e.children, e.children.len() as int)
}

pub open spec fn node_count_of<M>(s: Seq<ElementModel<M>>, k: int) -> int
    decreases s, k,
{
    if k <= 0 || k > s.len() {
        0
    } else {
        node_count_of(s, k - 1) + node_count(s[k - 1])
    }
}

proof fn lemma_rectangles_of_len<M>(s: Seq<ElementModel<M>>, k: int)
    ensures
        ElementModel::rectangles_of(s, k).len() == node_count_of(s, k),
    decreases s, k,
{
    if 0 < k <= s.len() {
        lemma_rectangles_of_len(s, k - 1);
        law_one_rectangle_per_element(s[k - 1]);
    }
}

/// Drawing a tree gives one rectangle per element, the element's own first.
pub proof fn law_one_rectangle_per_element<M>(e: ElementModel<M>)
    ensures
        e.rectangles().len() == node_count(e),
        e.rectangles()[0] == e.rectangle(),
    decreases e, 2int,
{
    lemma_rectangles_of_len(e.children, e.children.len() as int);
}

proof fn lemma_click_uncovered<M>(s: Seq<ElementModel<M>>, x: PointerCoordinate, y: PointerCoordinate, k: int, own: Option<M>)
    requires
        forall|i: int| 0 <= i < s.len() ==> !(#[trigger] s[i]).covers(x, y),
    ensures
        ElementModel::click_message_of(s, x, y, k, own) == own,
    decreases k,
{
    if 0 < k <= s.len() {
        lemma_click_uncovered(s, x, y, k - 1, own);
    }
}

/// A click that no child covers gets the element's own message.
pub proof fn law_click_outside_children<M>(e: ElementModel<M>, x: PointerCoordinate, y: PointerCoordinate)
    requires
        forall|i: int| 0 <= i < e.children.len() ==> !(#[trigger] e.children[i]).covers(x, y),
    ensures
        e.click_message(x, y) == e.on_click,
{
    lemma_click_uncovered(e.children, x, y, e.children.len() as int, e.on_click);
}

/// Sizing a tree in a dimension leaves the root's own settings and assigned
/// sizes as they were, and keeps the number of its children.
pub proof fn law_final_keeps_root<M>(e: ElementModel<M>, dimension: Dimension)
    ensures
        ({
            let (sized, _) = e.finalized(dimension);
            &&& sized.assigned_size == e.assigned_size
            &&& sized.size == e.size
            &&& sized.direction == e.direction
            &&& sized.indentation == e.indentation
            &&& sized.child_gaps == e.child_gaps
            &&& sized.children.len() == e.children.len()
        }),
{
    e.lemma_step_shape(dimension);
    let (stepped, r) = e.size_step(dimension);
    ElementModel::lemma_finalize_children_prefix(e.children, stepped.children, dimension, 0);
    if r is Ok {
        finalize_children_len(e.children, stepped.children, dimension, e.children.len() as int);
    }
}

proof fn finalize_children_len<M>(pc: Seq<ElementModel<M>>, cs: Seq<ElementModel<M>>, dimension: Dimension, k: int)
    requires
        same_shape(pc, cs),
        0 <= k <= cs.len(),
    ensures
        ElementModel::finalize_children(pc, cs, dimension, k).0.len() == cs.len(),
{
    ElementModel::lemma_finalize_children_prefix(pc, cs, dimension, k);
}

/// Recording the text measures twice is the same as once.
pub proof fn law_text_data_idempotent<M>(e: ElementModel<M>)
    ensures
        e.with_text_data().with_text_data() == e.with_text_data(),
    decreases e,
{
    let t = e.with_text_data();
    assert forall|i: int| 0 <= i < e.children.len() implies #[trigger] t.with_text_data().children[i] == t.children[i] by {
        law_text_data_idempotent(e.children[i]);
    }
    assert(t.with_text_data().children =~= t.children);
    assert(t.with_text_data() =~= t);
}

/// Whether, among the children `cs` (once `orig`), every child that has grown
/// is at most `slack` larger than any child that can still grow.
pub open spec fn grow_balanced<M>(orig: Seq<ElementModel<M>>, cs: Seq<ElementModel<M>>, dimension: Dimension, slack: int) -> bool {
    forall|i: int, j: int|
        0 <= i < cs.len() && 0 <= j < cs.len() && #[trigger] cs[i].size_in(dimension) > orig[i].size_in(dimension)
            && #[trigger] cs[j].can_grow(dimension) ==> cs[i].size_in(dimension) <= cs[j].size_in(dimension) + slack
}

/// The values that one round of growing works with: the smallest size, the
/// next size, the children at the smallest size, those chosen, and the amount.
pub open spec fn grow_round_parts<M>(cs: Seq<ElementModel<M>>, dimension: Dimension, fit: int, target: int) -> (int, int, Seq<usize>, Seq<usize>, int) {
    let idx = ElementModel::growable(cs, dimension, cs.len() as int);
    let (smallest, second) = ElementModel::grow_bounds(cs, dimension, idx, idx.len() as int);
    let level = ElementModel::sized_at(cs, dimension, idx, smallest, idx.len() as int);
    let room = target - fit;
    let chosen = at_most(level, room);
    let share = room / (chosen.len() as int);
    let amount = if share < second - smallest { share } else { second - smallest };
    (smallest, second, level, chosen, amount)
}

proof fn lemma_grow_round_parts<M>(cs: Seq<ElementModel<M>>, dimension: Dimension, fit: int, target: int)
    requires
        cs.len() <= usize::MAX,
        0 <= fit < target <= u64::MAX,
        ElementModel::grow_ready(cs, dimension, fit),
        ElementModel::growable(cs, dimension, cs.len() as int).len() > 0,
    ensures
        ({
            let (smallest, second, level, chosen, amount) = grow_round_parts(cs, dimension, fit, target);
            let (next, next_fit) = ElementModel::grow_round(cs, dimension, fit, target);
            &&& next == ElementModel::resize_chosen(cs, dimension, chosen, amount)
            &&& next_fit == fit + amount * chosen.len()
            &&& forall|j: int| 0 <= j < cs.len() && (#[trigger] cs[j]).can_grow(dimension) ==> {
                &&& cs[j].size_in(dimension) >= smallest
                &&& cs[j].size_in(dimension) > smallest ==> cs[j].size_in(dimension) >= second
                &&& cs[j].size_in(dimension) == smallest ==> level.contains(j as usize)
            }
            &&& forall|p: int| 0 <= p < chosen.len() ==> #[trigger] cs[chosen[p] as int].size_in(dimension) == smallest
            &&& 1 <= amount
            &&& 0 <= smallest
            &&& smallest + amount <= second <= u64::MAX
            &&& target - fit < level.len() ==> amount == 1 && next_fit == target
            &&& target - fit >= level.len() ==> chosen == level
        }),
{
    let n = cs.len() as int;
    let idx = ElementModel::growable(cs, dimension, n);
    ElementModel::lemma_growable(cs, dimension, n);
    assert forall|j: int| 0 <= j < idx.len() implies (#[trigger] cs[idx[j] as int]).size_in(dimension) < u64::MAX by {
        assert(cs[idx[j] as int].can_grow(dimension));
    }
    ElementModel::lemma_grow_bounds(cs, dimension, idx, idx.len() as int);
    let (smallest, second, level, chosen, amount) = grow_round_parts(cs, dimension, fit, target);
    ElementModel::lemma_sized_at(cs, dimension, idx, smallest, idx.len() as int);
    let room = target - fit;
    let len = chosen.len() as int;
    lemma_share(room, len);
    assert forall|j: int| 0 <= j < n && (#[trigger] cs[j]).can_grow(dimension) implies {
        &&& cs[j].size_in(dimension) >= smallest
        &&& cs[j].size_in(dimension) > smallest ==> cs[j].size_in(dimension) >= second
        &&& cs[j].size_in(dimension) == smallest ==> level.contains(j as usize)
    } by {
        assert(idx.contains(j as usize));
        let q = choose|q: int| 0 <= q < idx.len() && idx[q] == j as usize;
        assert(cs[idx[q] as int].size_in(dimension) >= smallest);
    }
    assert forall|p: int| 0 <= p < chosen.len() implies #[trigger] cs[chosen[p] as int].size_in(dimension) == smallest by {
        assert(chosen[p] == level[p]);
    }
    if room < level.len() {
        assert(room / len == 1) by {
            vstd::arithmetic::div_mod::lemma_div_by_self(room);
        }
        assert(fit + amount * len == target) by (nonlinear_arith)
            requires
                amount == 1,
                len == room,
                room == target - fit;
    }
}

proof fn lemma_grow_balanced<M>(orig: Seq<ElementModel<M>>, cs: Seq<ElementModel<M>>, dimension: Dimension, fit: int, target: int)
    requires
        cs.len() <= usize::MAX,
        orig.len() == cs.len(),
        0 <= fit <= target <= u64::MAX,
        ElementModel::grow_ready(cs, dimension, fit),
        grow_balanced(orig, cs, dimension, 0),
    ensures
        grow_balanced(orig, ElementModel::grow(cs, dimension, fit, target).0, dimension, 1),
    decreases target - fit,
{
    let n = cs.len() as int;
    if fit >= target || ElementModel::growable(cs, dimension, n).len() == 0 {
    } else {
        lemma_grow_round(cs, dimension, fit, target);
        lemma_grow_round_parts(cs, dimension, fit, target);
        let (next, next_fit) = ElementModel::grow_round(cs, dimension, fit, target);
        let (smallest, second, level, chosen, amount) = grow_round_parts(cs, dimension, fit, target);
        if target - fit < level.len() {
            lemma_balanced_last_round(orig, cs, next, dimension, smallest, chosen, amount);
        } else {
            lemma_balanced_round(orig, cs, next, dimension, smallest, second, chosen, amount);
            if !(next_fit <= fit || next_fit >= target) {
                lemma_grow_balanced(orig, next, dimension, next_fit, target);
            }
        }
    }
}

proof fn lemma_balanced_last_round<M>(
    orig: Seq<ElementModel<M>>,
    cs: Seq<ElementModel<M>>,
    next: Seq<ElementModel<M>>,
    dimension: Dimension,
    smallest: int,
    chosen: Seq<usize>,
    amount: int,
)
    requires
        cs.len() <= usize::MAX,
        orig.len() == cs.len(),
        next.len() == cs.len(),
        grow_balanced(orig, cs, dimension, 0),
        amount == 1,
        next == ElementModel::resize_chosen(cs, dimension, chosen, amount),
        forall|j: int| 0 <= j < cs.len() ==> grew_from(cs[j], #[trigger] next[j], dimension),
        forall|j: int| 0 <= j < cs.len() && (#[trigger] cs[j]).can_grow(dimension) ==> cs[j].size_in(dimension) >= smallest,
        forall|p: int| 0 <= p < chosen.len() ==> #[trigger] cs[chosen[p] as int].size_in(dimension) == smallest,
    ensures
        grow_balanced(orig, next, dimension, 1),
{
    let n = cs.len() as int;
    assert forall|i: int, j: int|
        0 <= i < n && 0 <= j < n && #[trigger] next[i].size_in(dimension) > orig[i].size_in(dimension)
            && #[trigger] next[j].can_grow(dimension) implies next[i].size_in(dimension)
            <= next[j].size_in(dimension) + 1 by {
        assert(grew_from(cs[j], next[j], dimension));
        assert(grew_from(cs[i], next[i], dimension));
        assert(cs[j].can_grow(dimension));
        if chosen.contains(i as usize) {
            let p = choose|p: int| 0 <= p < chosen.len() && chosen[p] == i as usize;
            assert(cs[chosen[p] as int].size_in(dimension) == smallest);
        } else {
            assert(next[i] == cs[i]);
        }
    }
}

proof fn lemma_balanced_round<M>(
    orig: Seq<ElementModel<M>>,
    cs: Seq<ElementModel<M>>,
    next: Seq<ElementModel<M>>,
    dimension: Dimension,
    smallest: int,
    second: int,
    chosen: Seq<usize>,
    amount: int,
)
    requires
        cs.len() <= usize::MAX,
        orig.len() == cs.len(),
        next.len() == cs.len(),
        grow_balanced(orig, cs, dimension, 0),
        0 <= smallest,
        0 <= amount,
        smallest + amount <= second <= u64::MAX,
        next == ElementModel::resize_chosen(cs, dimension, chosen, amount),
        forall|j: int| 0 <= j < cs.len() ==> grew_from(cs[j], #[trigger] next[j], dimension),
        forall|j: int| 0 <= j < cs.len() && (#[trigger] cs[j]).can_grow(dimension) ==> {
            &&& cs[j].size_in(dimension) >= smallest
            &&& cs[j].size_in(dimension) > smallest ==> cs[j].size_in(dimension) >= second
            &&& cs[j].size_in(dimension) == smallest ==> chosen.contains(j as usize)
        },
        forall|p: int| 0 <= p < chosen.len() ==> #[trigger] cs[chosen[p] as int].size_in(dimension) == smallest,
    ensures
        grow_balanced(orig, next, dimension, 0),
{
    let n = cs.len() as int;
    assert forall|i: int, j: int|
        0 <= i < n && 0 <= j < n && #[trigger] next[i].size_in(dimension) > orig[i].size_in(dimension)
            && #[trigger] next[j].can_grow(dimension) implies next[i].size_in(dimension)
            <= next[j].size_in(dimension) by {
        assert(grew_from(cs[j], next[j], dimension));
        assert(grew_from(cs[i], next[i], dimension));
        assert(cs[j].can_grow(dimension));
        if chosen.contains(j as usize) {
            let p = choose|p: int| 0 <= p < chosen.len() && chosen[p] == j as usize;
            assert(cs[chosen[p] as int].size_in(dimension) == smallest);
            assert(next[j].size_in(dimension) == smallest + amount);
        } else {
            assert(next[j] == cs[j]);
            assert(cs[j].size_in(dimension) != smallest);
            assert(next[j].size_in(dimension) >= smallest + amount);
        }
        if chosen.contains(i as usize) {
            let p = choose|p: int| 0 <= p < chosen.len() && chosen[p] == i as usize;
            assert(cs[chosen[p] as int].size_in(dimension) == smallest);
            assert(next[i].size_in(dimension) == smallest + amount);
        } else {
            assert(next[i] == cs[i]);
            assert(cs[i].size_in(dimension) <= cs[j].size_in(dimension));
        }
    }
}

/// Growing shares the space evenly: once growing is done, no child that grew
/// is more than one pixel larger than a child that can still grow.
pub proof fn law_grow_balanced<M>(cs: Seq<ElementModel<M>>, dimension: Dimension, fit: int, target: int)
    requires
        cs.len() <= usize::MAX,
        0 <= fit <= target <= u64::MAX,
        ElementModel::grow_ready(cs, dimension, fit),
    ensures
        grow_balanced(cs, ElementModel::grow(cs, dimension, fit, target).0, dimension, 1),
{
    lemma_grow_balanced(cs, cs, dimension, fit, target);
}

/// Whether, among the children `cs` (once `orig`), every child that has
/// shrunk is at most `slack` smaller than any child that can still shrink.
pub open spec fn shrink_balanced<M>(orig: Seq<ElementModel<M>>, cs: Seq<ElementModel<M>>, dimension: Dimension, slack: int) -> bool {
    forall|i: int, j: int|
        0 <= i < cs.len() && 0 <= j < cs.len() && #[trigger] cs[i].size_in(dimension) < orig[i].size_in(dimension)
            && #[trigger] cs[j].can_shrink(dimension) ==> cs[i].size_in(dimension) + slack >= cs[j].size_in(dimension)
}

/// The values that one round of shrinking works with: the largest size, the
/// next size, the children at the largest size, those chosen, and the amount.
pub open spec fn shrink_round_parts<M>(cs: Seq<ElementModel<M>>, dimension: Dimension, fit: int, target: int) -> (int, int, Seq<usize>, Seq<usize>, int) {
    let idx = ElementModel::shrinkable(cs, dimension, cs.len() as int);
    let (largest, second) = ElementModel::shrink_bounds(cs, dimension, idx, idx.len() as int);
    let level = ElementModel::sized_at(cs, dimension, idx, largest, idx.len() as int);
    let room = fit - target;
    let chosen = level;
    let share = room / (chosen.len() as int);
    let amount = if share < largest - second { share } else { largest - second };
    (largest, second, level, chosen, amount)
}

proof fn lemma_shrink_round_parts<M>(cs: Seq<ElementModel<M>>, dimension: Dimension, fit: int, target: int)
    requires
        cs.len() <= usize::MAX,
        0 <= target < fit <= u64::MAX,
        ElementModel::shrink_ready(cs, dimension),
        ElementModel::shrinkable(cs, dimension, cs.len() as int).len() > 0,
        ElementModel::shrink_round_fits(cs, dimension, fit, target),
    ensures
        ({
            let (largest, second, level, chosen, amount) = shrink_round_parts(cs, dimension, fit, target);
            let (next, next_fit) = ElementModel::shrink_round(cs, dimension, fit, target);
            &&& next == ElementModel::resize_chosen(cs, dimension, chosen, -amount)
            &&& forall|j: int| 0 <= j < cs.len() && (#[trigger] cs[j]).can_shrink(dimension) ==> {
                &&& cs[j].size_in(dimension) <= largest
                &&& cs[j].size_in(dimension) < largest ==> cs[j].size_in(dimension) <= second
                &&& cs[j].size_in(dimension) == largest ==> level.contains(j as usize)
            }
            &&& forall|p: int| 0 <= p < chosen.len() ==> #[trigger] cs[chosen[p] as int].size_in(dimension) == largest
            &&& 1 <= amount
            &&& 0 <= second <= largest - amount
            &&& largest <= u64::MAX
            &&& chosen == level
        }),
{
    let n = cs.len() as int;
    let idx = ElementModel::shrinkable(cs, dimension, n);
    ElementModel::lemma_shrinkable(cs, dimension, n);
    ElementModel::lemma_shrink_bounds(cs, dimension, idx, idx.len() as int);
    let (largest, second, level, chosen, amount) = shrink_round_parts(cs, dimension, fit, target);
    ElementModel::lemma_sized_at(cs, dimension, idx, largest, idx.len() as int);
    let room = fit - target;
    let len = chosen.len() as int;
    lemma_share(room, len);
    assert forall|j: int| 0 <= j < n && (#[trigger] cs[j]).can_shrink(dimension) implies {
        &&& cs[j].size_in(dimension) <= largest
        &&& cs[j].size_in(dimension) < largest ==> cs[j].size_in(dimension) <= second
        &&& cs[j].size_in(dimension) == largest ==> level.contains(j as usize)
    } by {
        assert(idx.contains(j as usize));
        let q = choose|q: int| 0 <= q < idx.len() && idx[q] == j as usize;
        assert(cs[idx[q] as int].size_in(dimension) <= largest);
    }
    assert forall|p: int| 0 <= p < chosen.len() implies #[trigger] cs[chosen[p] as int].size_in(dimension) == largest by {
        assert(chosen[p] == level[p]);
    }
}

proof fn lemma_shrink_balanced_round<M>(
    orig: Seq<ElementModel<M>>,
    cs: Seq<ElementModel<M>>,
    next: Seq<ElementModel<M>>,
    dimension: Dimension,
    largest: int,
    second: int,
    chosen: Seq<usize>,
    amount: int,
    last: bool,
)
    requires
        cs.len() <= usize::MAX,
        orig.len() == cs.len(),
        next.len() == cs.len(),
        shrink_balanced(orig, cs, dimension, 0),
        0 <= amount,
        0 <= second <= largest - amount,
        largest <= u64::MAX,
        last ==> amount == 1,
        next == ElementModel::resize_chosen(cs, dimension, chosen, -amount),
        forall|j: int| 0 <= j < cs.len() ==> shrank_from(cs[j], #[trigger] next[j], dimension),
        forall|j: int| 0 <= j < cs.len() && (#[trigger] cs[j]).can_shrink(dimension) ==> {
            &&& cs[j].size_in(dimension) <= largest
            &&& cs[j].size_in(dimension) < largest ==> cs[j].size_in(dimension) <= second
            &&& (!last && cs[j].size_in(dimension) == largest) ==> chosen.contains(j as usize)
        },
        forall|p: int| 0 <= p < chosen.len() ==> #[trigger] cs[chosen[p] as int].size_in(dimension) == largest,
    ensures
        shrink_balanced(orig, next, dimension, if last { 1 } else { 0 }),
{
    let n = cs.len() as int;
    let slack: int = if last { 1 } else { 0 };
    assert forall|i: int, j: int|
        0 <= i < n && 0 <= j < n && #[trigger] next[i].size_in(dimension) < orig[i].size_in(dimension)
            && #[trigger] next[j].can_shrink(dimension) implies next[i].size_in(dimension) + slack
            >= next[j].size_in(dimension) by {
        assert(shrank_from(cs[j], next[j], dimension));
        assert(shrank_from(cs[i], next[i], dimension));
        assert(cs[j].can_shrink(dimension));
        if chosen.contains(j as usize) {
            let p = choose|p: int| 0 <= p < chosen.len() && chosen[p] == j as usize;
            assert(cs[chosen[p] as int].size_in(dimension) == largest);
            assert(next[j].size_in(dimension) == largest - amount);
        } else {
            assert(next[j] == cs[j]);
            assert(next[j].size_in(dimension) <= largest);
            if !last {
                assert(cs[j].size_in(dimension) != largest);
                assert(next[j].size_in(dimension) <= largest - amount);
            }
        }
        if chosen.contains(i as usize) {
            let p = choose|p: int| 0 <= p < chosen.len() && chosen[p] == i as usize;
            assert(cs[chosen[p] as int].size_in(dimension) == largest);
            assert(next[i].size_in(dimension) == largest - amount);
        } else {
            assert(next[i] == cs[i]);
            assert(cs[i].size_in(dimension) >= cs[j].size_in(dimension));
        }
    }
}

proof fn lemma_shrink_balanced<M>(orig: Seq<ElementModel<M>>, cs: Seq<ElementModel<M>>, dimension: Dimension, fit: int, target: int)
    requires
        cs.len() <= usize::MAX,
        orig.len() == cs.len(),
        0 <= target <= fit <= u64::MAX,
        ElementModel::shrink_ready(cs, dimension),
        !ElementModel::shrink_stalls(cs, dimension, fit, target),
        shrink_balanced(orig, cs, dimension, 0),
    ensures
        shrink_balanced(orig, ElementModel::shrink(cs, dimension, fit, target).0, dimension, 0),
    decreases fit - target,
{
    let n = cs.len() as int;
    if fit <= target || ElementModel::shrinkable(cs, dimension, n).len() == 0 {
    } else {
        lemma_shrink_round(cs, dimension, fit, target);
        lemma_shrink_round_parts(cs, dimension, fit, target);
        let (next, next_fit) = ElementModel::shrink_round(cs, dimension, fit, target);
        let (largest, second, level, chosen, amount) = shrink_round_parts(cs, dimension, fit, target);
        lemma_shrink_balanced_round(orig, cs, next, dimension, largest, second, chosen, amount, false);
        if !(next_fit >= fit || next_fit <= target) {
            lemma_shrink_balanced(orig, next, dimension, next_fit, target);
        }
    }
}

/// Shrinking takes the space evenly: once shrinking that does not stall is
/// done, no child that shrank is smaller than a child that can still shrink.
pub proof fn law_shrink_balanced<M>(cs: Seq<ElementModel<M>>, dimension: Dimension, fit: int, target: int)
    requires
        cs.len() <= usize::MAX,
        0 <= target <= fit <= u64::MAX,
        ElementModel::shrink_ready(cs, dimension),
        !ElementModel::shrink_stalls(cs, dimension, fit, target),
    ensures
        shrink_balanced(cs, ElementModel::shrink(cs, dimension, fit, target).0, dimension, 0),
{
    lemma_shrink_balanced(cs, cs, dimension, fit, target);
}


proof fn lemma_fit_ok_kept<M>(e: ElementModel<M>, dimension: Dimension)
    requires
        e.fit_ok(dimension),
    ensures
        e.fitted(dimension).fit_ok(dimension),
    decreases e,
{
    let f = e.fitted(dimension);
    lemma_fitted_measures(e, dimension);
    assert forall|i: int| 0 <= i < f.children.len() implies (#[trigger] f.children[i]).fit_ok(dimension) by {
        assert(f.children[i] == e.children[i].fitted(dimension));
        lemma_fit_ok_kept(e.children[i], dimension);
    }
}

/// Measuring a tree that stays within `u64` gives a tree that does too; so
/// it can be measured again, and that second measuring changes nothing and
/// gives the same size as the first.
pub proof fn law_fit_twice<M>(e: ElementModel<M>, dimension: Dimension)
    requires
        e.fit_ok(dimension),
    ensures
        e.fitted(dimension).fit_ok(dimension),
        e.fitted(dimension).fitted(dimension) == e.fitted(dimension),
        e.fitted(dimension).fit_size(dimension) == e.fit_size(dimension),
{
    lemma_fit_ok_kept(e, dimension);
    law_fit_idempotent(e, dimension);
    lemma_fitted_measures(e, dimension);
}

proof fn lemma_fit_range<M>(e: ElementModel<M>, dimension: Dimension)
    requires
        e.fit_ok(dimension),
    ensures
        0 <= e.fit_content(dimension),
        e.fit_content(dimension) + e.indentation_in(dimension) <= e.fit_measured(dimension) <= u64::MAX,
        0 <= e.fit_size(dimension) <= u64::MAX,
{
    let n = e.children.len() as int;
    ElementModel::lemma_fit_sum_monotone(e.children, dimension, 0, n);
    if n > 0 {
        e.children[n - 1].lemma_fit_size_nonnegative(dimension);
    }
    assert forall|k: int| 0 < k <= n implies ElementModel::fit_max(e.children, dimension, k) >= 0 by {
        lemma_fit_max_nonnegative(e.children, dimension, k);
    }
    if n > 1 {
        assert(e.child_gaps * (n - 1) >= 0) by (nonlinear_arith)
            requires
                n > 1;
    }
}

proof fn lemma_fit_max_nonnegative<M>(s: Seq<ElementModel<M>>, dimension: Dimension, k: int)
    ensures
        ElementModel::fit_max(s, dimension, k) >= 0,
    decreases k,
{
    if 0 < k <= s.len() {
        lemma_fit_max_nonnegative(s, dimension, k - 1);
    }
}

/// Measuring an element in the dimension along its direction leaves it ready
/// to size its children along it: it has an assigned and a fit size, every
/// child has an assigned size, and no growable child is larger than the fit
/// size. The one thing measuring does not settle is whether shrinking, where
/// it is needed, stalls; there the sizing would never end.
pub proof fn law_fitted_along_ready<M>(e: ElementModel<M>, dimension: Dimension)
    requires
        e.fit_ok(dimension),
        e.is_along(dimension),
        ({
            let f = e.fitted(dimension);
            f.assigned_in(dimension) < f.fit_in(dimension) ==> !ElementModel::shrink_stalls(
                f.children,
                dimension,
                f.fit_in(dimension),
                f.assigned_in(dimension),
            )
        }),
    ensures
        e.fitted(dimension).along_ready(dimension),
{
    let f = e.fitted(dimension);
    let n = e.children.len() as int;
    lemma_fit_range(e, dimension);
    assert(f.fit_in(dimension) == e.fit_measured(dimension));
    assert forall|i: int| 0 <= i < n implies (#[trigger] f.children[i]).assigned_size.at(dimension) is Some
        && f.children[i].size_in(dimension) <= f.fit_in(dimension) by {
        let c = e.children[i];
        assert(f.children[i] == c.fitted(dimension));
        lemma_fit_range(c, dimension);
        ElementModel::lemma_fit_sum_monotone(e.children, dimension, i + 1, n);
        ElementModel::lemma_fit_sum_monotone(e.children, dimension, 0, i);
        assert(ElementModel::fit_sum(e.children, dimension, i + 1) == ElementModel::fit_sum(e.children, dimension, i)
            + c.fit_size(dimension));
        if n > 1 {
            assert(e.child_gaps * (n - 1) >= 0) by (nonlinear_arith)
                requires
                    n > 1;
        }
    }
}

/// Measuring an element leaves it ready for its step of the final sizing in
/// the same dimension: along its direction where shrinking does not stall
/// (see `law_fitted_along_ready`), and across it where its maximum, if it
/// has one, leaves room for its indentation; below that the inner space
/// would be negative.
pub proof fn law_fitted_step_ready<M>(e: ElementModel<M>, dimension: Dimension)
    requires
        e.fit_ok(dimension),
        e.is_along(dimension) ==> ({
            let f = e.fitted(dimension);
            f.assigned_in(dimension) < f.fit_in(dimension) ==> !ElementModel::shrink_stalls(
                f.children,
                dimension,
                f.fit_in(dimension),
                f.assigned_in(dimension),
            )
        }),
        !e.is_along(dimension) ==> (e.maximum_size(dimension) matches Some(m) ==> m >= e.indentation_in(dimension)),
    ensures
        e.fitted(dimension).step_ready(dimension),
{
    if e.is_along(dimension) {
        law_fitted_along_ready(e, dimension);
    } else {
        let f = e.fitted(dimension);
        lemma_fit_range(e, dimension);
        assert(f.assigned_in(dimension) == e.fit_size(dimension));
        assert forall|i: int| 0 <= i < f.children.len() implies (#[trigger] f.children[i]).assigned_size.at(
            dimension,
        ) is Some by {
            assert(f.children[i] == e.children[i].fitted(dimension));
        }
    }
}

/// A coordinate moved by `delta`, where there is one.
pub open spec fn shift_coordinate(v: Option<u64>, delta: int) -> Option<u64> {
    match v {
        Some(v) => Some((v + delta) as u64),
        None => None,
    }
}

/// The tree with every element's position moved by `dx` and `dy`.
pub open spec fn shifted<M>(e: ElementModel<M>, dx: int, dy: int) -> ElementModel<M>
    decreases e,
{
    ElementModel {
        position: Position { x: shift_coordinate(e.position.x, dx), y: shift_coordinate(e.position.y, dy) },
        children: Seq::new(e.children.len(), |i: int| if 0 <= i < e.children.len() {
            shifted(e.children[i], dx, dy)
        } else {
            e.children[i]
        }),
        ..e
    }
}

/// Placing a tree at another position moves every element by the same
/// amount, the difference of the two positions, and changes nothing else.
pub proof fn law_placed_moves_with_root<M>(e: ElementModel<M>, from: Position, to: Position)
    requires
        from.x is Some,
        from.y is Some,
        to.x is Some,
        to.y is Some,
        e.place_ok(from),
        e.place_ok(to),
    ensures
        e.placed(to) == shifted(
            e.placed(from),
            to.x->Some_0 - from.x->Some_0,
            to.y->Some_0 - from.y->Some_0,
        ),
    decreases e,
{
    let dx = to.x->Some_0 - from.x->Some_0;
    let dy = to.y->Some_0 - from.y->Some_0;
    let a = e.placed(from);
    let b = e.placed(to);
    let sa = shifted(a, dx, dy);
    let n = e.children.len() as int;
    assert forall|i: int| 0 <= i < n implies #[trigger] b.children[i] == sa.children[i] by {
        let c = e.children[i];
        let p1 = e.child_position(from, i);
        let p2 = e.child_position(to, i);
        assert(e.child_place_ok(from, i));
        assert(e.child_place_ok(to, i));
        lemma_offsets_grow(e, i);
        assert(e.across_offset(i) >= 0);
        assert(p1.x is Some && p1.y is Some && p2.x is Some && p2.y is Some);
        assert(p2.x->Some_0 - p1.x->Some_0 == dx && p2.y->Some_0 - p1.y->Some_0 == dy);
        law_placed_moves_with_root(c, p1, p2);
        assert(b.children[i] == c.placed(p2));
        assert(a.children[i] == c.placed(p1));
    }
    assert(b.children =~= sa.children);
    assert(b =~= sa);
}

proof fn lemma_across_children_sizes<M>(cs: Seq<ElementModel<M>>, dimension: Dimension, available: int, k: int)
    requires
        0 <= k <= cs.len(),
        0 <= available <= u64::MAX,
    ensures
        ({
            let (sized, r) = ElementModel::across_children(cs, dimension, available, k);
            r is Ok ==> forall|i: int| 0 <= i < k ==> {
                &&& cs[i].across_child(dimension, available) is Ok
                &&& (#[trigger] sized[i]).size_in(dimension) == cs[i].across_child(dimension, available)->Ok_0
            }
        }),
    decreases k,
{
    if k > 0 {
        lemma_across_children_sizes(cs, dimension, available, k - 1);
        ElementModel::lemma_across_shape(cs, dimension, available, k - 1);
        let (prev, r) = ElementModel::across_children(cs, dimension, available, k - 1);
        let (sized, r2) = ElementModel::across_children(cs, dimension, available, k);
        if r is Ok {
            assert(prev[k - 1] == cs[k - 1]);
            match cs[k - 1].across_child(dimension, available) {
                Ok(v) => {
                    assert(0 <= v <= u64::MAX);
                    assert forall|i: int| 0 <= i < k implies {
                        &&& cs[i].across_child(dimension, available) is Ok
                        &&& (#[trigger] sized[i]).size_in(dimension) == cs[i].across_child(dimension, available)->Ok_0
                    } by {
                        if i < k - 1 {
                            assert(sized[i] == prev[i]);
                        }
                    }
                },
                Err(_) => {},
            }
        }
    }
}

/// Sizing the children across an element's direction, where it succeeds,
/// gives each child this size, with `a` the element's inner space: a
/// growable child smaller than `a` grows to `a`, but no further than its
/// maximum; a child larger than `a` shrinks to `a`; any other child keeps its
/// size. So no child ends above a maximum it was not already above, nor
/// above `a`.
pub proof fn law_across_sizes<M>(e: ElementModel<M>, dimension: Dimension)
    requires
        e.across_ready(dimension),
    ensures
        ({
            let (stepped, r) = e.across_step(dimension);
            let a = e.assigned_in(dimension) - e.indentation_in(dimension);
            r is Ok ==> forall|i: int| 0 <= i < e.children.len() ==> {
                let c = e.children[i];
                let now = (#[trigger] stepped.children[i]).size_in(dimension);
                &&& (c.size.at(dimension) is Grow && c.size_in(dimension) < a) ==> now == match c.maximum_size(dimension) {
                    Some(m) => if m < a { m as int } else { a },
                    None => a,
                }
                &&& c.size_in(dimension) > a ==> now == a
                &&& (!(c.size.at(dimension) is Grow) && c.size_in(dimension) <= a) ==> now == c.size_in(dimension)
                &&& c.maximum_size(dimension) matches Some(m) ==> (c.size_in(dimension) <= m ==> now <= m)
                &&& now <= a
            }
        }),
{
    let avail = e.available_in(dimension);
    let n = e.children.len() as int;
    lemma_across_children_sizes(e.children, dimension, avail, n);
    lemma_across_children(e.children, dimension, avail, n);
}

/// Along an element's direction, its first child starts after the start
/// indentation (the right one for a horizontal element, the top one for a
/// vertical one), plus none of the free space for `Start`, half of it
/// (rounded down) for `Centre`, and all of it for `End`. The free space is
/// what the element was assigned less what it needs.
pub proof fn law_first_child_aligned<M>(e: ElementModel<M>, position: Position)
    requires
        e.children.len() > 0,
    ensures
        ({
            let d = Dimension::of_direction(e.direction);
            let axis = Axis::of_dimension(d);
            let start: int = match e.direction {
                crate::element::Direction::Horizontal => e.indentation.1 as int,
                crate::element::Direction::Vertical => e.indentation.0 as int,
            };
            let free = or_zero(e.assigned_size.at(d)) - or_zero(e.calculated_fit_size.at(d));
            let skip: int = match e.alignment.at(axis) {
                Alignments::Start => 0,
                Alignments::Centre => free / 2,
                Alignments::End => free,
            };
            e.placed(position).children[0].position.at(axis) == Some((or_zero(position.at(axis)) + start + skip) as u64)
        }),
{
    assert(e.placed(position).children[0] == e.children[0].placed(e.child_position(position, 0)));
    assert(e.offset_after(0) == e.first_offset());
}

/// Where an element has a text, the first text placement of its tree is that
/// text, at the element's placed x plus its left indentation, and, counting
/// up from the bottom of a screen `screen_height` high, at the bottom of the
/// element plus its bottom indentation.
pub proof fn law_text_in_its_element<M>(e: ElementModel<M>, screen_height: u32)
    requires
        e.text is Some,
    ensures
        e.text_placements(screen_height).len() >= 1,
        e.text_placements(screen_height)[0] == (TextPlacement {
            key: e.text->Some_0.key,
            x: (or_zero(e.position.x) + e.indentation.3) as u64,
            y: (screen_height - or_zero(e.position.y) - or_zero(e.assigned_size.height) + e.indentation.2) as u64,
        }),
{
}

proof fn lemma_rectangles_of_parts<M>(s: Seq<ElementModel<M>>, i: int, k: int)
    requires
        0 <= i < k <= s.len(),
    ensures
        0 <= node_count_of(s, i) <= node_count_of(s, i + 1) <= node_count_of(s, k),
        ElementModel::rectangles_of(s, k).subrange(node_count_of(s, i), node_count_of(s, i + 1)) == s[i].rectangles(),
    decreases k,
{
    lemma_rectangles_of_len(s, k - 1);
    lemma_rectangles_of_len(s, k);
    lemma_rectangles_of_len(s, i);
    lemma_rectangles_of_len(s, i + 1);
    law_one_rectangle_per_element(s[k - 1]);
    law_one_rectangle_per_element(s[i]);
    let a = ElementModel::rectangles_of(s, k - 1);
    let b = s[k - 1].rectangles();
    assert(ElementModel::rectangles_of(s, k) == a + b);
    if i == k - 1 {
        assert((a + b).subrange(a.len() as int, (a + b).len() as int) =~= b);
    } else {
        lemma_rectangles_of_parts(s, i, k - 1);
        assert((a + b).subrange(node_count_of(s, i), node_count_of(s, i + 1)) =~= a.subrange(
            node_count_of(s, i),
            node_count_of(s, i + 1),
        ));
    }
}

/// Drawing a tree gives, first, the root's rectangle (its position, its
/// assigned size, its colour), then the rectangles of each child's tree in
/// turn, each taking as many places as that tree has elements.
pub proof fn law_rectangles_in_order<M>(e: ElementModel<M>)
    ensures
        e.rectangles()[0] == (ElementRectangle {
            position: e.position,
            size: Dimensions { width: or_zero(e.assigned_size.width), height: or_zero(e.assigned_size.height) },
            colour: e.colour,
        }),
        e.rectangles().len() == node_count(e),
        forall|i: int| 0 <= i < e.children.len() ==> e.rectangles().subrange(
            1 + node_count_of(e.children, i),
            1 + node_count_of(e.children, i + 1),
        ) == (#[trigger] e.children[i]).rectangles(),
{
    law_one_rectangle_per_element(e);
    let n = e.children.len() as int;
    let r = ElementModel::rectangles_of(e.children, n);
    assert forall|i: int| 0 <= i < n implies e.rectangles().subrange(
        1 + node_count_of(e.children, i),
        1 + node_count_of(e.children, i + 1),
    ) == (#[trigger] e.children[i]).rectangles() by {
        lemma_rectangles_of_parts(e.children, i, n);
        lemma_rectangles_of_len(e.children, n);
        assert(e.rectangles() == seq![e.rectangle()] + r);
        assert(e.rectangles().subrange(1 + node_count_of(e.children, i), 1 + node_count_of(e.children, i + 1))
            =~= r.subrange(node_count_of(e.children, i), node_count_of(e.children, i + 1)));
    }
}

/// Whether the point `x`, `y` lies in the rectangle that `c` was placed and
/// sized to, edges included.
pub open spec fn in_rectangle<M>(c: ElementModel<M>, x: PointerCoordinate, y: PointerCoordinate) -> bool {
    let left = or_zero(c.position.x) as int;
    let top = or_zero(c.position.y) as int;
    &&& left <= x.floor
    &&& x.ceil <= left + or_zero(c.assigned_size.width)
    &&& top <= y.floor
    &&& y.ceil <= top + or_zero(c.assigned_size.height)
}

/// A click outside the rectangles of all of an element's children gets the
/// element's own message, whatever the children hold.
pub proof fn law_click_outside_child_rectangles<M>(e: ElementModel<M>, x: PointerCoordinate, y: PointerCoordinate)
    requires
        forall|i: int| 0 <= i < e.children.len() ==> !in_rectangle(#[trigger] e.children[i], x, y),
    ensures
        e.click_message(x, y) == e.on_click,
{
    assert forall|i: int| 0 <= i < e.children.len() implies !(#[trigger] e.children[i]).covers(x, y) by {
        assert(!in_rectangle(e.children[i], x, y));
    }
    lemma_click_uncovered(e.children, x, y, e.children.len() as int, e.on_click);
}

proof fn lemma_click_last_covering<M>(s: Seq<ElementModel<M>>, x: PointerCoordinate, y: PointerCoordinate, i: int, k: int, own: Option<M>)
    requires
        0 <= i < k <= s.len(),
        in_rectangle(s[i], x, y),
        s[i].click_message(x, y) is Some,
        forall|j: int| i < j < s.len() ==> !in_rectangle(#[trigger] s[j], x, y),
    ensures
        ElementModel::click_message_of(s, x, y, k, own) == s[i].click_message(x, y),
    decreases k,
{
    if k > i + 1 {
        lemma_click_last_covering(s, x, y, i, k - 1, own);
        assert(!in_rectangle(s[k - 1], x, y));
    }
}

/// A click inside the rectangle of a child that has a message for it, and
/// inside no later child's rectangle, gets that child's message.
pub proof fn law_click_inside_child_rectangle<M>(e: ElementModel<M>, x: PointerCoordinate, y: PointerCoordinate, i: int)
    requires
        0 <= i < e.children.len(),
        in_rectangle(e.children[i], x, y),
        e.children[i].click_message(x, y) is Some,
        forall|j: int| i < j < e.children.len() ==> !in_rectangle(#[trigger] e.children[j], x, y),
    ensures
        e.click_message(x, y) == e.children[i].click_message(x, y),
{
    lemma_click_last_covering(e.children, x, y, i, e.children.len() as int, e.on_click);
}

} // verus!

//! The mathematical picture of an element tree that the contracts speak of,
//! and what the layout engine computes on it.
use vstd::prelude::*;

use crate::element::{
    Alignment, Alignments, Axis, Colour, Dimension, Dimensions, Direction, PointerCoordinate, Position, Size, SizeError,
    TextBox, TextPlacement,
};
use crate::renderer::ElementRectangle;

verus! {

/// An element as a value: its settings, its children, and the working values
/// that the layout engine fills in.
#[verifier::ext_equal]
pub struct ElementModel<M> {
    pub direction: Direction,
    pub size: Dimensions<Size>,
    pub colour: Colour,
    pub children: Seq<ElementModel<M>>,
    pub text: Option<TextBox>,
    pub on_click: Option<M>,
    pub child_gaps: u64,
    /// Top, right, bottom and left.
    pub indentation: (u64, u64, u64, u64),
    pub alignment: Alignment,
    pub id: Option<u64>,
    pub calculated_fit_size: Dimensions<Option<u64>>,
    pub assigned_size: Dimensions<Option<u64>>,
    pub position: Position,
    pub text_minimum: Option<u64>,
    pub text_ideal: Option<u64>,
}

/// At most the first `room` entries of `s`.
pub open spec fn at_most(s: Seq<usize>, room: int) -> Seq<usize> {
    if room < s.len() {
        s.take(room)
    } else {
        s
    }
}

/// The value held, or 0.
pub open spec fn or_zero(o: Option<u64>) -> u64 {
    match o {
        Some(v) => v,
        None => 0,
    }
}

/// The width that one character of text is taken to need.
pub open spec fn text_character_width() -> u64 {
    20
}

impl<M> ElementModel<M> {
    /// Whether `dimension` runs along this element's direction.
    pub open spec fn is_along(self, dimension: Dimension) -> bool {
        Dimension::of_direction(self.direction) == dimension
    }

    /// The smallest size that the element accepts in `dimension`.
    pub open spec fn minimum_size(self, dimension: Dimension) -> u64 {
        match self.size.at(dimension) {
            Size::Fixed(size) => size,
            Size::Fit { minimum, maximum: _ } => or_zero(minimum),
            Size::Grow { minimum, maximum: _ } => or_zero(minimum),
            Size::FitText { minimum, maximum: _ } => match dimension {
                Dimension::Width => if or_zero(minimum) > or_zero(self.text_minimum) {
                    or_zero(minimum)
                } else {
                    or_zero(self.text_minimum)
                },
                Dimension::Height => or_zero(minimum),
            },
        }
    }

    /// The largest size that the element accepts in `dimension`, if it has one.
    pub open spec fn maximum_size(self, dimension: Dimension) -> Option<u64> {
        match self.size.at(dimension) {
            Size::Fixed(size) => Some(size),
            Size::Fit { minimum: _, maximum } => maximum,
            Size::Grow { minimum: _, maximum } => maximum,
            Size::FitText { minimum: _, maximum } => maximum,
        }
    }

    /// The indentation on both ends of `dimension`: right and left for the
    /// width, top and bottom for the height.
    pub open spec fn indentation_in(self, dimension: Dimension) -> int {
        match dimension {
            Dimension::Width => self.indentation.1 + self.indentation.3,
            Dimension::Height => self.indentation.0 + self.indentation.2,
        }
    }

    /// The height that the element's text needs, with the top and bottom indentation.
    pub open spec fn text_height(self) -> int {
        match self.text {
            Some(text) => text.height + self.indentation.0 + self.indentation.2,
            None => 0,
        }
    }

    /// The space that the gaps between the children take.
    pub open spec fn gap_total(self) -> int {
        if self.children.len() > 1 {
            self.child_gaps * (self.children.len() - 1)
        } else {
            0
        }
    }

    /// The space that the children need in `dimension`: side by side along the
    /// direction (with the gaps), the largest one across it.
    pub open spec fn fit_content(self, dimension: Dimension) -> int
        decreases self, 1int,
    {
        if self.is_along(dimension) {
            self.gap_total() + Self::fit_sum(self.children, dimension, self.children.len() as int)
        } else {
            Self::fit_max(self.children, dimension, self.children.len() as int)
        }
    }

    /// The size that the element needs in `dimension` before its own bounds
    /// apply: its content and indentation, and for text its text.
    pub open spec fn fit_measured(self, dimension: Dimension) -> int
        decreases self, 2int,
    {
        let base = self.fit_content(dimension) + self.indentation_in(dimension);
        match self.size.at(dimension) {
            Size::FitText { .. } => match dimension {
                Dimension::Width => if base < or_zero(self.text_ideal) {
                    or_zero(self.text_ideal) as int
                } else {
                    base
                },
                Dimension::Height => if base < self.text_height() {
                    self.text_height()
                } else {
                    base
                },
            },
            _ => base,
        }
    }

    /// The needed size brought within the element's minimum and maximum
    /// (the maximum wins where they conflict).
    pub open spec fn fit_size(self, dimension: Dimension) -> int
        decreases self, 3int,
    {
        let measured = self.fit_measured(dimension);
        let raised = if measured < self.minimum_size(dimension) {
            self.minimum_size(dimension) as int
        } else {
            measured
        };
        match self.maximum_size(dimension) {
            Some(maximum) => if raised > maximum {
                maximum as int
            } else {
                raised
            },
            None => raised,
        }
    }

    /// The sum of the fit sizes of the first `k` elements of `s`.
    pub open spec fn fit_sum(s: Seq<Self>, dimension: Dimension, k: int) -> int
        decreases s, k,
    {
        if k <= 0 || k > s.len() {
            0
        } else {
            Self::fit_sum(s, dimension, k - 1) + s[k - 1].fit_size(dimension)
        }
    }

    /// The largest fit size among the first `k` elements of `s`, or 0.
    pub open spec fn fit_max(s: Seq<Self>, dimension: Dimension, k: int) -> int
        decreases s, k,
    {
        if k <= 0 || k > s.len() {
            0
        } else {
            let rest = Self::fit_max(s, dimension, k - 1);
            let here = s[k - 1].fit_size(dimension);
            if here > rest {
                here
            } else {
                rest
            }
        }
    }

    /// Whether measuring the tree in `dimension` stays within `u64` and finds
    /// the text widths that it reads.
    pub open spec fn fit_ok(self, dimension: Dimension) -> bool
        decreases self,
    {
        &&& (self.size.at(dimension) is FitText && dimension == Dimension::Width) ==> self.text_ideal is Some
        &&& (self.size.at(dimension) is FitText && dimension == Dimension::Height) ==> self.text_height() <= u64::MAX
        &&& self.fit_content(dimension) + self.indentation_in(dimension) <= u64::MAX
        &&& forall|i: int| 0 <= i < self.children.len() ==> (#[trigger] self.children[i]).fit_ok(dimension)
    }

    /// The tree after measuring it in `dimension`: each element records what
    /// it needs and is assigned that size within its bounds.
    pub open spec fn fitted(self, dimension: Dimension) -> Self
        decreases self,
    {
        ElementModel {
            children: self.children_fitted(dimension),
            calculated_fit_size: self.calculated_fit_size.with(dimension, Some(self.fit_measured(dimension) as u64)),
            assigned_size: self.assigned_size.with(dimension, Some(self.fit_size(dimension) as u64)),
            ..self
        }
    }

    /// The children, each measured in `dimension`.
    pub open spec fn children_fitted(self, dimension: Dimension) -> Seq<Self>
        decreases self, 0int,
    {
        Seq::new(self.children.len(), |i: int| if 0 <= i < self.children.len() {
            self.children[i].fitted(dimension)
        } else {
            self.children[i]
        })
    }
}

} // verus!

verus! {

impl<M> ElementModel<M> {
    /// Whether recording the text measures stays within `u64`: each text's
    /// ideal width with the left and right indentation.
    pub open spec fn text_data_ok(self) -> bool
        decreases self,
    {
        &&& (self.text matches Some(t) ==> t.ideal_width + self.indentation.1 + self.indentation.3 <= u64::MAX)
        &&& forall|i: int| 0 <= i < self.children.len() ==> (#[trigger] self.children[i]).text_data_ok()
    }

    /// The tree with the text measures recorded in each element: the smallest
    /// width a text may have, and its ideal width with the left and right indentation.
    pub open spec fn with_text_data(self) -> Self
        decreases self,
    {
        ElementModel {
            children: Seq::new(self.children.len(), |i: int| if 0 <= i < self.children.len() {
                self.children[i].with_text_data()
            } else {
                self.children[i]
            }),
            text_minimum: match self.text {
                Some(_) => Some(text_character_width()),
                None => None,
            },
            text_ideal: match self.text {
                Some(t) => Some((t.ideal_width + self.indentation.1 + self.indentation.3) as u64),
                None => None,
            },
            ..self
        }
    }
}

} // verus!

verus! {

impl<M> ElementModel<M> {
    /// A fit size is never negative.
    pub proof fn lemma_fit_size_nonnegative(self, dimension: Dimension)
        ensures
            self.fit_size(dimension) >= 0,
    {
    }

    /// Sums of fit sizes grow with the number of elements summed.
    pub proof fn lemma_fit_sum_monotone(s: Seq<Self>, dimension: Dimension, i: int, k: int)
        requires
            0 <= i <= k <= s.len(),
        ensures
            0 <= Self::fit_sum(s, dimension, i) <= Self::fit_sum(s, dimension, k),
        decreases k,
    {
        if k > i {
            Self::lemma_fit_sum_monotone(s, dimension, i, k - 1);
            s[k - 1].lemma_fit_size_nonnegative(dimension);
        } else if i > 0 {
            Self::lemma_fit_sum_monotone(s, dimension, i - 1, i - 1);
            s[i - 1].lemma_fit_size_nonnegative(dimension);
        }
    }
}

} // verus!

verus! {

impl<M> ElementModel<M> {
    /// The size assigned in `dimension`, or 0 where none is.
    pub open spec fn size_in(self, dimension: Dimension) -> int {
        or_zero(self.assigned_size.at(dimension)) as int
    }

    /// The element assigned `value` in `dimension`.
    pub open spec fn with_size(self, dimension: Dimension, value: int) -> Self {
        ElementModel { assigned_size: self.assigned_size.with(dimension, Some(value as u64)), ..self }
    }

    /// The element with these children and this recorded fit size in `dimension`.
    pub open spec fn with_children_fit(self, children: Seq<Self>, dimension: Dimension, fit: int) -> Self {
        ElementModel {
            children,
            calculated_fit_size: self.calculated_fit_size.with(dimension, Some(fit as u64)),
            ..self
        }
    }

    /// Whether a child can still grow in `dimension`: it is sized `Grow` and
    /// is below its maximum.
    pub open spec fn can_grow(self, dimension: Dimension) -> bool {
        &&& self.size.at(dimension) is Grow
        &&& match self.maximum_size(dimension) {
            Some(maximum) => self.size_in(dimension) < maximum,
            None => true,
        }
    }

    /// Whether a child can still shrink in `dimension`: it is sized `Fit` or
    /// `FitText` and is above its minimum.
    pub open spec fn can_shrink(self, dimension: Dimension) -> bool {
        &&& (self.size.at(dimension) is Fit || self.size.at(dimension) is FitText)
        &&& self.size_in(dimension) > self.minimum_size(dimension)
    }

    /// The indices, in order, of the first `k` children that can grow.
    pub open spec fn growable(cs: Seq<Self>, dimension: Dimension, k: int) -> Seq<usize>
        decreases k,
    {
        if k <= 0 || k > cs.len() {
            Seq::empty()
        } else if cs[k - 1].can_grow(dimension) {
            Self::growable(cs, dimension, k - 1).push((k - 1) as usize)
        } else {
            Self::growable(cs, dimension, k - 1)
        }
    }

    /// The indices, in order, of the first `k` children that can shrink.
    pub open spec fn shrinkable(cs: Seq<Self>, dimension: Dimension, k: int) -> Seq<usize>
        decreases k,
    {
        if k <= 0 || k > cs.len() {
            Seq::empty()
        } else if cs[k - 1].can_shrink(dimension) {
            Self::shrinkable(cs, dimension, k - 1).push((k - 1) as usize)
        } else {
            Self::shrinkable(cs, dimension, k - 1)
        }
    }

    /// Over the children at the first `k` of the indices `idx`: the smallest
    /// size, and the next size a child may grow to before it reaches another
    /// size or its maximum (`u64::MAX` where nothing bounds it).
    pub open spec fn grow_bounds(cs: Seq<Self>, dimension: Dimension, idx: Seq<usize>, k: int) -> (int, int)
        decreases k,
    {
        if k <= 0 || k > idx.len() {
            (u64::MAX as int, u64::MAX as int)
        } else {
            let (smallest0, second0) = Self::grow_bounds(cs, dimension, idx, k - 1);
            let child = cs[idx[k - 1] as int];
            let v = child.size_in(dimension);
            let (smallest1, second1) = if v < smallest0 {
                (v, smallest0)
            } else {
                (smallest0, second0)
            };
            let second2 = if v < second1 && v > smallest1 {
                v
            } else {
                second1
            };
            let second3 = match child.maximum_size(dimension) {
                Some(maximum) => if maximum < second2 {
                    maximum as int
                } else {
                    second2
                },
                None => second2,
            };
            (smallest1, second3)
        }
    }

    /// Over the children at the first `k` of the indices `idx`: the largest
    /// size, and the next size a child may shrink to before it reaches
    /// another size or its minimum.
    pub open spec fn shrink_bounds(cs: Seq<Self>, dimension: Dimension, idx: Seq<usize>, k: int) -> (int, int)
        decreases k,
    {
        if k <= 0 || k > idx.len() {
            (0, 0)
        } else {
            let (largest0, second0) = Self::shrink_bounds(cs, dimension, idx, k - 1);
            let child = cs[idx[k - 1] as int];
            let v = child.size_in(dimension);
            let (largest1, second1) = if v > largest0 {
                (v, largest0)
            } else {
                (largest0, second0)
            };
            let second2 = if v > second1 && v < largest1 {
                v
            } else {
                second1
            };
            let minimum = child.minimum_size(dimension);
            let second3 = if minimum > second2 {
                minimum as int
            } else {
                second2
            };
            (largest1, second3)
        }
    }

    /// The first `k` of the indices `idx` whose child has size `level`, in order.
    pub open spec fn sized_at(cs: Seq<Self>, dimension: Dimension, idx: Seq<usize>, level: int, k: int) -> Seq<usize>
        decreases k,
    {
        if k <= 0 || k > idx.len() {
            Seq::empty()
        } else if cs[idx[k - 1] as int].size_in(dimension) == level {
            Self::sized_at(cs, dimension, idx, level, k - 1).push(idx[k - 1])
        } else {
            Self::sized_at(cs, dimension, idx, level, k - 1)
        }
    }

    /// The children with `change` added to the size of each child whose index is in `chosen`.
    pub open spec fn resize_chosen(cs: Seq<Self>, dimension: Dimension, chosen: Seq<usize>, change: int) -> Seq<Self> {
        Seq::new(cs.len(), |i: int| if chosen.contains(i as usize) {
            cs[i].with_size(dimension, cs[i].size_in(dimension) + change)
        } else {
            cs[i]
        })
    }

    /// One round of growing: the smallest growable children, at most as many
    /// as there are pixels left to fill (the first ones), grow by an equal
    /// share of the room left, but not past the next size or maximum.
    /// Gives the new children and the new fit size.
    pub open spec fn grow_round(cs: Seq<Self>, dimension: Dimension, fit: int, target: int) -> (Seq<Self>, int) {
        let idx = Self::growable(cs, dimension, cs.len() as int);
        let (smallest, second) = Self::grow_bounds(cs, dimension, idx, idx.len() as int);
        let room = target - fit;
        let chosen = at_most(Self::sized_at(cs, dimension, idx, smallest, idx.len() as int), room);
        let share = room / (chosen.len() as int);
        let amount = if share < second - smallest {
            share
        } else {
            second - smallest
        };
        (Self::resize_chosen(cs, dimension, chosen, amount), fit + amount * chosen.len())
    }

    /// One round of shrinking: the largest shrinkable children shrink by an
    /// equal share of the excess, rounded down, but not past the next size or
    /// minimum. Gives the new children and the new fit size.
    pub open spec fn shrink_round(cs: Seq<Self>, dimension: Dimension, fit: int, target: int) -> (Seq<Self>, int) {
        let idx = Self::shrinkable(cs, dimension, cs.len() as int);
        let (largest, second) = Self::shrink_bounds(cs, dimension, idx, idx.len() as int);
        let room = fit - target;
        let chosen = Self::sized_at(cs, dimension, idx, largest, idx.len() as int);
        let share = room / (chosen.len() as int);
        let amount = if share < largest - second {
            share
        } else {
            largest - second
        };
        (Self::resize_chosen(cs, dimension, chosen, -amount), fit - amount * chosen.len())
    }

    /// Grows the children round by round until they fill `target` or none can grow.
    pub open spec fn grow(cs: Seq<Self>, dimension: Dimension, fit: int, target: int) -> (Seq<Self>, int)
        decreases target - fit,
    {
        if fit >= target || Self::growable(cs, dimension, cs.len() as int).len() == 0 {
            (cs, fit)
        } else {
            let (next, next_fit) = Self::grow_round(cs, dimension, fit, target);
            if next_fit <= fit || next_fit >= target {
                (next, next_fit)
            } else {
                Self::grow(next, dimension, next_fit, target)
            }
        }
    }

    /// Whether a round of shrinking has at least one pixel of excess for each
    /// of the largest shrinkable children, so that its share is not nothing.
    pub open spec fn shrink_round_fits(cs: Seq<Self>, dimension: Dimension, fit: int, target: int) -> bool {
        let idx = Self::shrinkable(cs, dimension, cs.len() as int);
        let (largest, second) = Self::shrink_bounds(cs, dimension, idx, idx.len() as int);
        Self::sized_at(cs, dimension, idx, largest, idx.len() as int).len() <= fit - target
    }

    /// Whether shrinking reaches a round with less excess than there are
    /// largest shrinkable children: each of them would then shrink by
    /// nothing, round after round, and shrinking would never end.
    pub open spec fn shrink_stalls(cs: Seq<Self>, dimension: Dimension, fit: int, target: int) -> bool
        decreases fit - target,
    {
        if fit <= target || Self::shrinkable(cs, dimension, cs.len() as int).len() == 0 {
            false
        } else if !Self::shrink_round_fits(cs, dimension, fit, target) {
            true
        } else {
            let (next, next_fit) = Self::shrink_round(cs, dimension, fit, target);
            if next_fit >= fit || next_fit <= target {
                false
            } else {
                Self::shrink_stalls(next, dimension, next_fit, target)
            }
        }
    }

    /// Shrinks the children round by round until they fit in `target` or none can shrink.
    pub open spec fn shrink(cs: Seq<Self>, dimension: Dimension, fit: int, target: int) -> (Seq<Self>, int)
        decreases fit - target,
    {
        if fit <= target || Self::shrinkable(cs, dimension, cs.len() as int).len() == 0 {
            (cs, fit)
        } else {
            let (next, next_fit) = Self::shrink_round(cs, dimension, fit, target);
            if next_fit >= fit || next_fit <= target {
                (next, next_fit)
            } else {
                Self::shrink(next, dimension, next_fit, target)
            }
        }
    }

    /// The size assigned to the element in `dimension` and the size it recorded as needed.
    pub open spec fn assigned_in(self, dimension: Dimension) -> int {
        or_zero(self.assigned_size.at(dimension)) as int
    }

    pub open spec fn fit_in(self, dimension: Dimension) -> int {
        or_zero(self.calculated_fit_size.at(dimension)) as int
    }

    /// Sizing the children along the element's direction: where the children
    /// leave space, the growable ones grow into it; where they overflow, the
    /// fitting ones shrink. Fails where they cannot shrink enough, except for
    /// the width of a text element above its minimum, which then takes the
    /// assigned width as its fit size.
    pub open spec fn along_step(self, dimension: Dimension) -> (Self, Result<(), SizeError>) {
        let target = self.assigned_in(dimension);
        let fit = self.fit_in(dimension);
        let (grown, grown_fit) = if target > fit {
            Self::grow(self.children, dimension, fit, target)
        } else {
            (self.children, fit)
        };
        if target < grown_fit {
            let (shrunk, shrunk_fit) = Self::shrink(grown, dimension, grown_fit, target);
            if target < shrunk_fit {
                if dimension == Dimension::Width && self.size.at(dimension) is FitText && target
                    > self.minimum_size(dimension) {
                    (self.with_children_fit(shrunk, dimension, target), Ok(()))
                } else {
                    (self.with_children_fit(shrunk, dimension, shrunk_fit), Err(SizeError::CantShrinkChildren(1)))
                }
            } else {
                (self.with_children_fit(shrunk, dimension, shrunk_fit), Ok(()))
            }
        } else if target > fit {
            (self.with_children_fit(grown, dimension, grown_fit), Ok(()))
        } else {
            (self, Ok(()))
        }
    }
}

} // verus!

verus! {

/// Whether the entries of `s` are strictly increasing and index into a sequence of length `n`.
pub open spec fn increasing_below(s: Seq<usize>, n: int) -> bool {
    &&& forall|p: int, q: int| 0 <= p < q < s.len() ==> s[p] < s[q]
    &&& forall|p: int| 0 <= p < s.len() ==> s[p] < n
}

impl<M> ElementModel<M> {
    pub proof fn lemma_growable(cs: Seq<Self>, dimension: Dimension, k: int)
        requires
            0 <= k <= cs.len(),
            cs.len() <= usize::MAX,
        ensures
            increasing_below(Self::growable(cs, dimension, k), k),
            forall|p: int| 0 <= p < Self::growable(cs, dimension, k).len()
                ==> cs[#[trigger] Self::growable(cs, dimension, k)[p] as int].can_grow(dimension),
            forall|i: int| 0 <= i < k && cs[i].can_grow(dimension)
                ==> #[trigger] Self::growable(cs, dimension, k).contains(i as usize),
        decreases k,
    {
        if k > 0 {
            Self::lemma_growable(cs, dimension, k - 1);
            let prev = Self::growable(cs, dimension, k - 1);
            let cur = Self::growable(cs, dimension, k);
            assert forall|i: int| 0 <= i < k && cs[i].can_grow(dimension) implies cur.contains(i as usize) by {
                if i < k - 1 {
                    assert(prev.contains(i as usize));
                    let p = choose|p: int| 0 <= p < prev.len() && prev[p] == i as usize;
                    assert(cur[p] == i as usize);
                } else {
                    assert(cur[cur.len() - 1] == i as usize);
                }
            }
        }
    }

    pub proof fn lemma_shrinkable(cs: Seq<Self>, dimension: Dimension, k: int)
        requires
            0 <= k <= cs.len(),
            cs.len() <= usize::MAX,
        ensures
            increasing_below(Self::shrinkable(cs, dimension, k), k),
            forall|p: int| 0 <= p < Self::shrinkable(cs, dimension, k).len()
                ==> cs[#[trigger] Self::shrinkable(cs, dimension, k)[p] as int].can_shrink(dimension),
            forall|i: int| 0 <= i < k && cs[i].can_shrink(dimension)
                ==> #[trigger] Self::shrinkable(cs, dimension, k).contains(i as usize),
        decreases k,
    {
        if k > 0 {
            Self::lemma_shrinkable(cs, dimension, k - 1);
            let prev = Self::shrinkable(cs, dimension, k - 1);
            let cur = Self::shrinkable(cs, dimension, k);
            assert forall|i: int| 0 <= i < k && cs[i].can_shrink(dimension) implies cur.contains(i as usize) by {
                if i < k - 1 {
                    assert(prev.contains(i as usize));
                    let p = choose|p: int| 0 <= p < prev.len() && prev[p] == i as usize;
                    assert(cur[p] == i as usize);
                } else {
                    assert(cur[cur.len() - 1] == i as usize);
                }
            }
        }
    }

    pub proof fn lemma_sized_at(cs: Seq<Self>, dimension: Dimension, idx: Seq<usize>, level: int, k: int)
        requires
            0 <= k <= idx.len(),
            increasing_below(idx, cs.len() as int),
        ensures
            increasing_below(Self::sized_at(cs, dimension, idx, level, k), cs.len() as int),
            forall|p: int| 0 <= p < Self::sized_at(cs, dimension, idx, level, k).len() ==> {
                &&& cs[#[trigger] Self::sized_at(cs, dimension, idx, level, k)[p] as int].size_in(dimension) == level
                &&& exists|j: int| 0 <= j < k && idx[j] == Self::sized_at(cs, dimension, idx, level, k)[p]
            },
            k > 0 ==> forall|p: int| 0 <= p < Self::sized_at(cs, dimension, idx, level, k).len()
                ==> #[trigger] Self::sized_at(cs, dimension, idx, level, k)[p] <= idx[k - 1],
            (exists|j: int| 0 <= j < k && cs[idx[j] as int].size_in(dimension) == level)
                ==> Self::sized_at(cs, dimension, idx, level, k).len() > 0,
            forall|j: int| 0 <= j < k && cs[#[trigger] idx[j] as int].size_in(dimension) == level
                ==> Self::sized_at(cs, dimension, idx, level, k).contains(idx[j]),
        decreases k,
    {
        if k > 0 {
            Self::lemma_sized_at(cs, dimension, idx, level, k - 1);
            let prev = Self::sized_at(cs, dimension, idx, level, k - 1);
            let cur = Self::sized_at(cs, dimension, idx, level, k);
            assert forall|j: int| 0 <= j < k && cs[#[trigger] idx[j] as int].size_in(dimension) == level
                implies cur.contains(idx[j]) by {
                if j < k - 1 {
                    let p = choose|p: int| 0 <= p < prev.len() && prev[p] == idx[j];
                    assert(cur[p] == idx[j]);
                } else {
                    assert(cur[cur.len() - 1] == idx[j]);
                }
            }
            assert forall|p: int| 0 <= p < cur.len() implies exists|j: int| 0 <= j < k && idx[j] == #[trigger] cur[p] by {
                if p < prev.len() {
                    assert(cur[p] == prev[p]);
                    let j = choose|j: int| 0 <= j < k - 1 && idx[j] == prev[p];
                    assert(idx[j] == cur[p]);
                } else {
                    assert(idx[k - 1] == cur[p]);
                }
            }
            if exists|j: int| 0 <= j < k && cs[idx[j] as int].size_in(dimension) == level {
                if cs[idx[k - 1] as int].size_in(dimension) != level {
                    let j = choose|j: int| 0 <= j < k && cs[idx[j] as int].size_in(dimension) == level;
                    assert(j < k - 1);
                }
            }
        }
    }

    pub proof fn lemma_grow_bounds(cs: Seq<Self>, dimension: Dimension, idx: Seq<usize>, k: int)
        requires
            0 <= k <= idx.len(),
            forall|j: int| 0 <= j < idx.len() ==> #[trigger] idx[j] < cs.len(),
            forall|j: int| 0 <= j < idx.len() ==> (#[trigger] cs[idx[j] as int]).can_grow(dimension),
            forall|j: int| 0 <= j < idx.len() ==> (#[trigger] cs[idx[j] as int]).size_in(dimension) < u64::MAX,
        ensures
            ({
                let (smallest, second) = Self::grow_bounds(cs, dimension, idx, k);
                &&& 0 <= smallest <= second <= u64::MAX
                &&& k > 0 ==> smallest < second
                &&& k > 0 ==> exists|j: int| 0 <= j < k && cs[idx[j] as int].size_in(dimension) == smallest
                &&& forall|j: int| 0 <= j < k ==> smallest <= #[trigger] cs[idx[j] as int].size_in(dimension)
                &&& forall|j: int| 0 <= j < k ==> (#[trigger] cs[idx[j] as int].maximum_size(dimension) matches Some(m) ==> second <= m)
                &&& forall|j: int| 0 <= j < k && #[trigger] cs[idx[j] as int].size_in(dimension) > smallest
                    ==> second <= cs[idx[j] as int].size_in(dimension)
            }),
        decreases k,
    {
        if k > 0 {
            Self::lemma_grow_bounds(cs, dimension, idx, k - 1);
            let (s0, t0) = Self::grow_bounds(cs, dimension, idx, k - 1);
            let (s, t) = Self::grow_bounds(cs, dimension, idx, k);
            let v = cs[idx[k - 1] as int].size_in(dimension);
            if v >= s0 {
                let j = choose|j: int| 0 <= j < k - 1 && cs[idx[j] as int].size_in(dimension) == s0;
                assert(0 <= j < k && cs[idx[j] as int].size_in(dimension) == s);
            } else {
                assert(cs[idx[k - 1] as int].size_in(dimension) == s);
            }
        }
    }

    pub proof fn lemma_shrink_bounds(cs: Seq<Self>, dimension: Dimension, idx: Seq<usize>, k: int)
        requires
            0 <= k <= idx.len(),
            forall|j: int| 0 <= j < idx.len() ==> #[trigger] idx[j] < cs.len(),
            forall|j: int| 0 <= j < idx.len() ==> (#[trigger] cs[idx[j] as int]).can_shrink(dimension),
            forall|j: int| 0 <= j < idx.len() ==> (#[trigger] cs[idx[j] as int]).size_in(dimension) <= u64::MAX,
        ensures
            ({
                let (largest, second) = Self::shrink_bounds(cs, dimension, idx, k);
                &&& 0 <= second <= largest <= u64::MAX
                &&& k > 0 ==> second < largest
                &&& k > 0 ==> exists|j: int| 0 <= j < k && cs[idx[j] as int].size_in(dimension) == largest
                &&& forall|j: int| 0 <= j < k ==> largest >= #[trigger] cs[idx[j] as int].size_in(dimension)
                &&& forall|j: int| 0 <= j < k ==> second >= #[trigger] cs[idx[j] as int].minimum_size(dimension)
                &&& forall|j: int| 0 <= j < k && #[trigger] cs[idx[j] as int].size_in(dimension) < largest
                    ==> second >= cs[idx[j] as int].size_in(dimension)
            }),
        decreases k,
    {
        if k > 0 {
            Self::lemma_shrink_bounds(cs, dimension, idx, k - 1);
            let (l0, t0) = Self::shrink_bounds(cs, dimension, idx, k - 1);
            let (l, t) = Self::shrink_bounds(cs, dimension, idx, k);
            let v = cs[idx[k - 1] as int].size_in(dimension);
            if v <= l0 {
                let j = choose|j: int| 0 <= j < k - 1 && cs[idx[j] as int].size_in(dimension) == l0;
                assert(0 <= j < k && cs[idx[j] as int].size_in(dimension) == l);
            } else {
                assert(cs[idx[k - 1] as int].size_in(dimension) == l);
            }
        }
    }
}

} // verus!

verus! {

impl<M> ElementModel<M> {
    /// Whether every child sized `Grow` in `dimension` has an assigned size,
    /// no larger than `fit`.
    pub open spec fn grow_ready(cs: Seq<Self>, dimension: Dimension, fit: int) -> bool {
        forall|i: int| 0 <= i < cs.len() && (#[trigger] cs[i]).size.at(dimension) is Grow
            ==> cs[i].assigned_size.at(dimension) is Some && cs[i].size_in(dimension) <= fit
    }

    /// Whether every child sized `Fit` or `FitText` in `dimension` has an assigned size.
    pub open spec fn shrink_ready(cs: Seq<Self>, dimension: Dimension) -> bool {
        forall|i: int| 0 <= i < cs.len() && ((#[trigger] cs[i]).size.at(dimension) is Fit
            || cs[i].size.at(dimension) is FitText) ==> cs[i].assigned_size.at(dimension) is Some
    }
}

} // verus!

verus! {

impl<M> ElementModel<M> {
    /// Whether sizing the children along the direction can run: the element
    /// has an assigned and a fit size in `dimension`, and the children it
    /// would grow or shrink have sizes (the growable ones within the fit size),
    /// and shrinking, where it is needed, does not stall.
    pub open spec fn along_ready(self, dimension: Dimension) -> bool {
        &&& self.assigned_size.at(dimension) is Some
        &&& self.calculated_fit_size.at(dimension) is Some
        &&& self.assigned_in(dimension) > self.fit_in(dimension)
            ==> Self::grow_ready(self.children, dimension, self.fit_in(dimension))
        &&& self.assigned_in(dimension) < self.fit_in(dimension) ==> Self::shrink_ready(self.children, dimension)
        &&& self.assigned_in(dimension) < self.fit_in(dimension)
            ==> !Self::shrink_stalls(self.children, dimension, self.fit_in(dimension), self.assigned_in(dimension))
    }
}

} // verus!

verus! {

/// An equal share of `x` among `n` takes no more than `x` in all, and is at
/// least 1 where there is at least one unit for each.
pub proof fn lemma_share(x: int, n: int)
    requires
        x >= 0,
        n >= 1,
    ensures
        (x / n) * n <= x,
        n <= x ==> x / n >= 1,
{
    vstd::arithmetic::div_mod::lemma_fundamental_div_mod(x, n);
    vstd::arithmetic::div_mod::lemma_mod_pos_bound(x, n);
    vstd::arithmetic::mul::lemma_mul_is_commutative(n, x / n);
    if n <= x {
        vstd::arithmetic::div_mod::lemma_div_is_ordered(n, x, n);
        vstd::arithmetic::div_mod::lemma_div_by_self(n);
    }
}

} // verus!

verus! {

/// Whether `b` has the elements of `a` with only their own settings and sizes changed:
/// the same number, each with the same children.
pub open spec fn same_shape<M>(a: Seq<ElementModel<M>>, b: Seq<ElementModel<M>>) -> bool {
    &&& a.len() == b.len()
    &&& forall|i: int| 0 <= i < a.len() ==> (#[trigger] b[i]).children == a[i].children
}

impl<M> ElementModel<M> {
    /// What sizing a child across the element's direction does to it, given the
    /// space `available` inside the element: a growable child smaller than the
    /// space grows to fill it (up to its maximum); a child larger than the
    /// space shrinks to it if it fits its content, and otherwise the sizing fails.
    pub open spec fn across_child(self, dimension: Dimension, available: int) -> Result<int, SizeError> {
        let current = self.size_in(dimension);
        let grown = if current < available && self.size.at(dimension) is Grow {
            match self.maximum_size(dimension) {
                Some(maximum) => if maximum < available {
                    maximum as int
                } else {
                    available
                },
                None => available,
            }
        } else {
            current
        };
        if grown > available {
            match self.size.at(dimension) {
                Size::Fixed(_) => Err(SizeError::CantShrinkChildren(2)),
                Size::Grow { .. } => Err(SizeError::CantShrinkChildren(3)),
                Size::Fit { .. } => if self.minimum_size(dimension) > available {
                    Err(SizeError::CantShrinkChildren(4))
                } else {
                    Ok(available)
                },
                Size::FitText { .. } => if self.minimum_size(dimension) > available {
                    Err(SizeError::CantShrinkChildren(5))
                } else {
                    Ok(available)
                },
            }
        } else {
            Ok(grown)
        }
    }

    /// The first `k` children sized across the direction in turn; the first
    /// failure stops the sizing and leaves the later children as they were.
    pub open spec fn across_children(cs: Seq<Self>, dimension: Dimension, available: int, k: int) -> (Seq<Self>, Result<(), SizeError>)
        decreases k,
    {
        if k <= 0 || k > cs.len() {
            (cs, Ok(()))
        } else {
            let (prev, r) = Self::across_children(cs, dimension, available, k - 1);
            if r is Err {
                (prev, r)
            } else {
                match cs[k - 1].across_child(dimension, available) {
                    Ok(v) => if v == cs[k - 1].size_in(dimension) {
                        (prev, Ok(()))
                    } else {
                        (prev.update(k - 1, cs[k - 1].with_size(dimension, v)), Ok(()))
                    },
                    Err(e) => (prev, Err(e)),
                }
            }
        }
    }

    /// The space inside the element in `dimension`: its assigned size less its indentation.
    pub open spec fn available_in(self, dimension: Dimension) -> int {
        self.assigned_in(dimension) - self.indentation_in(dimension)
    }

    /// Sizing the children across the element's direction.
    pub open spec fn across_step(self, dimension: Dimension) -> (Self, Result<(), SizeError>) {
        let (cs, r) = Self::across_children(self.children, dimension, self.available_in(dimension), self.children.len() as int);
        (ElementModel { children: cs, ..self }, r)
    }

    /// Whether sizing the children across the direction can run: the element
    /// has an assigned size no smaller than its indentation, and every child
    /// has an assigned size.
    pub open spec fn across_ready(self, dimension: Dimension) -> bool {
        &&& self.assigned_size.at(dimension) is Some
        &&& self.available_in(dimension) >= 0
        &&& forall|i: int| 0 <= i < self.children.len() ==> (#[trigger] self.children[i]).assigned_size.at(dimension) is Some
    }

    /// Sizing the element's children in `dimension`, along or across its direction.
    pub open spec fn size_step(self, dimension: Dimension) -> (Self, Result<(), SizeError>) {
        if self.is_along(dimension) {
            self.along_step(dimension)
        } else {
            self.across_step(dimension)
        }
    }

    pub open spec fn step_ready(self, dimension: Dimension) -> bool {
        if self.is_along(dimension) {
            self.along_ready(dimension)
        } else {
            self.across_ready(dimension)
        }
    }

    /// The tree after the final sizing in `dimension`, top down: each element
    /// sizes its children, then each child does the same in turn. The first
    /// failure stops the sizing.
    pub open spec fn finalized(self, dimension: Dimension) -> (Self, Result<(), SizeError>)
        decreases self.children, self.children.len() + 1,
    {
        let (stepped, r) = self.size_step(dimension);
        if r is Err {
            (stepped, r)
        } else {
            let (cs, r2) = Self::finalize_children(self.children, stepped.children, dimension, self.children.len() as int);
            (ElementModel { children: cs, ..stepped }, r2)
        }
    }

    /// The first `k` of the children `cs` (once children `pc`) sized in turn.
    pub open spec fn finalize_children(pc: Seq<Self>, cs: Seq<Self>, dimension: Dimension, k: int) -> (Seq<Self>, Result<(), SizeError>)
        decreases pc, k,
    {
        if k <= 0 || k > cs.len() || cs.len() != pc.len() {
            (cs, Ok(()))
        } else {
            let (prev, r) = Self::finalize_children(pc, cs, dimension, k - 1);
            if r is Err {
                (prev, r)
            } else if cs[k - 1].children == pc[k - 1].children {
                let (c, r2) = cs[k - 1].finalized(dimension);
                (prev.update(k - 1, c), r2)
            } else {
                (prev, r)
            }
        }
    }

    /// Whether the final sizing in `dimension` can run on the tree: each
    /// element that it reaches, in the state it reaches it in, is ready for its step.
    pub open spec fn final_ready(self, dimension: Dimension) -> bool
        decreases self.children, self.children.len() + 1,
    {
        &&& self.step_ready(dimension)
        &&& ({
            let (stepped, r) = self.size_step(dimension);
            r is Ok ==> Self::children_ready(self.children, stepped.children, dimension, self.children.len() as int)
        })
    }

    pub open spec fn children_ready(pc: Seq<Self>, cs: Seq<Self>, dimension: Dimension, k: int) -> bool
        decreases pc, k,
    {
        if k <= 0 || k > cs.len() || cs.len() != pc.len() {
            true
        } else {
            &&& Self::children_ready(pc, cs, dimension, k - 1)
            &&& (Self::finalize_children(pc, cs, dimension, k - 1).1 is Ok && cs[k - 1].children == pc[k - 1].children)
                ==> cs[k - 1].final_ready(dimension)
        }
    }
}

} // verus!

verus! {

impl<M> ElementModel<M> {
    pub proof fn lemma_grow_shape(cs: Seq<Self>, dimension: Dimension, fit: int, target: int)
        ensures
            same_shape(cs, Self::grow(cs, dimension, fit, target).0),
        decreases target - fit,
    {
        if !(fit >= target || Self::growable(cs, dimension, cs.len() as int).len() == 0) {
            let (next, next_fit) = Self::grow_round(cs, dimension, fit, target);
            if !(next_fit <= fit || next_fit >= target) {
                Self::lemma_grow_shape(next, dimension, next_fit, target);
            }
        }
    }

    pub proof fn lemma_shrink_shape(cs: Seq<Self>, dimension: Dimension, fit: int, target: int)
        ensures
            same_shape(cs, Self::shrink(cs, dimension, fit, target).0),
        decreases fit - target,
    {
        if !(fit <= target || Self::shrinkable(cs, dimension, cs.len() as int).len() == 0) {
            let (next, next_fit) = Self::shrink_round(cs, dimension, fit, target);
            if !(next_fit >= fit || next_fit <= target) {
                Self::lemma_shrink_shape(next, dimension, next_fit, target);
            }
        }
    }

    pub proof fn lemma_across_shape(cs: Seq<Self>, dimension: Dimension, available: int, k: int)
        ensures
            same_shape(cs, Self::across_children(cs, dimension, available, k).0),
            forall|j: int| k <= j < cs.len() ==> #[trigger] Self::across_children(cs, dimension, available, k).0[j] == cs[j],
        decreases k,
    {
        if k > 0 && k <= cs.len() {
            Self::lemma_across_shape(cs, dimension, available, k - 1);
        }
    }

    /// Sizing an element's children changes only the children's own sizes.
    pub proof fn lemma_step_shape(self, dimension: Dimension)
        ensures
            same_shape(self.children, self.size_step(dimension).0.children),
    {
        if self.is_along(dimension) {
            let target = self.assigned_in(dimension);
            let fit = self.fit_in(dimension);
            Self::lemma_grow_shape(self.children, dimension, fit, target);
            let (grown, grown_fit) = if target > fit {
                Self::grow(self.children, dimension, fit, target)
            } else {
                (self.children, fit)
            };
            Self::lemma_shrink_shape(grown, dimension, grown_fit, target);
        } else {
            Self::lemma_across_shape(self.children, dimension, self.available_in(dimension), self.children.len() as int);
        }
    }

    pub proof fn lemma_finalize_children_prefix(pc: Seq<Self>, cs: Seq<Self>, dimension: Dimension, k: int)
        requires
            same_shape(pc, cs),
            0 <= k <= cs.len(),
        ensures
            Self::finalize_children(pc, cs, dimension, k).0.len() == cs.len(),
            forall|j: int| k <= j < cs.len() ==> #[trigger] Self::finalize_children(pc, cs, dimension, k).0[j] == cs[j],
        decreases k,
    {
        if k > 0 {
            Self::lemma_finalize_children_prefix(pc, cs, dimension, k - 1);
        }
    }

    pub proof fn lemma_children_ready_prefix(pc: Seq<Self>, cs: Seq<Self>, dimension: Dimension, k: int, n: int)
        requires
            Self::children_ready(pc, cs, dimension, n),
            0 <= k <= n <= cs.len(),
        ensures
            Self::children_ready(pc, cs, dimension, k),
        decreases n - k,
    {
        if k < n {
            Self::lemma_children_ready_prefix(pc, cs, dimension, k, n - 1);
        }
    }
}

} // verus!

verus! {

impl<M> ElementModel<M> {
    pub proof fn lemma_across_failure_stays(cs: Seq<Self>, dimension: Dimension, available: int, k: int, n: int)
        requires
            0 <= k <= n <= cs.len(),
            Self::across_children(cs, dimension, available, k).1 is Err,
        ensures
            Self::across_children(cs, dimension, available, n) == Self::across_children(cs, dimension, available, k),
        decreases n - k,
    {
        if k < n {
            Self::lemma_across_failure_stays(cs, dimension, available, k, n - 1);
        }
    }
}

} // verus!

verus! {

impl<M> ElementModel<M> {
    pub proof fn lemma_finalize_failure_stays(pc: Seq<Self>, cs: Seq<Self>, dimension: Dimension, k: int, n: int)
        requires
            0 <= k <= n <= cs.len(),
            Self::finalize_children(pc, cs, dimension, k).1 is Err,
        ensures
            Self::finalize_children(pc, cs, dimension, n) == Self::finalize_children(pc, cs, dimension, k),
        decreases n - k,
    {
        if k < n {
            Self::lemma_finalize_failure_stays(pc, cs, dimension, k, n - 1);
        }
    }
}

} // verus!

verus! {

impl<M> ElementModel<M> {
    /// The dimension along the element's direction.
    pub open spec fn along(self) -> Dimension {
        Dimension::of_direction(self.direction)
    }

    /// The indentation before the first child along the direction: the right
    /// indentation for a horizontal element, the top for a vertical one.
    pub open spec fn along_start_indentation(self) -> int {
        match self.along() {
            Dimension::Width => self.indentation.1 as int,
            Dimension::Height => self.indentation.0 as int,
        }
    }

    /// The indentations before and after the children across the direction:
    /// top and bottom for a horizontal element, right and left for a vertical one.
    pub open spec fn across_start_indentation(self) -> int {
        match self.along() {
            Dimension::Width => self.indentation.0 as int,
            Dimension::Height => self.indentation.1 as int,
        }
    }

    pub open spec fn across_end_indentation(self) -> int {
        match self.along() {
            Dimension::Width => self.indentation.2 as int,
            Dimension::Height => self.indentation.3 as int,
        }
    }

    /// The offset of the first child along the direction: the start
    /// indentation, plus all (End) or half (Centre) of the space that the
    /// children leave free.
    pub open spec fn first_offset(self) -> int {
        let d = self.along();
        let excess = self.assigned_in(d) - self.fit_in(d);
        match self.alignment.at(Axis::of_dimension(d)) {
            Alignments::Start => self.along_start_indentation(),
            Alignments::Centre => self.along_start_indentation() + excess / 2,
            Alignments::End => self.along_start_indentation() + excess,
        }
    }

    /// The offset along the direction after the first `k` children and a gap after each.
    pub open spec fn offset_after(self, k: int) -> int
        decreases k,
    {
        if k <= 0 || k > self.children.len() {
            self.first_offset()
        } else {
            self.offset_after(k - 1) + self.children[k - 1].size_in(self.along()) + self.child_gaps
        }
    }

    /// The space across the direction that the child at `i` leaves free.
    pub open spec fn child_excess_across(self, i: int) -> int {
        let o = self.along().spec_opposite();
        self.assigned_in(o) - self.children[i].size_in(o) - self.across_start_indentation()
            - self.across_end_indentation()
    }

    /// The offset across the direction of the child at `i`, by the alignment across it.
    pub open spec fn across_offset(self, i: int) -> int {
        let o = self.along().spec_opposite();
        match self.alignment.at(Axis::of_dimension(o)) {
            Alignments::Start => self.across_start_indentation(),
            Alignments::Centre => self.across_start_indentation() + self.child_excess_across(i) / 2,
            Alignments::End => self.across_start_indentation() + self.child_excess_across(i),
        }
    }

    /// Where the child at `i` goes when the element is at `position`: one
    /// after the other along the direction, aligned across it.
    pub open spec fn child_position(self, position: Position, i: int) -> Position {
        let d = self.along();
        let o = d.spec_opposite();
        let along = or_zero(position.at(Axis::of_dimension(d)));
        let across = or_zero(position.at(Axis::of_dimension(o)));
        Position { x: None, y: None }
            .with(Axis::of_dimension(d), Some((self.offset_after(i) + along) as u64))
            .with(Axis::of_dimension(o), Some((self.across_offset(i) + across) as u64))
    }

    /// The tree with the element at `position` and each descendant where its parent puts it.
    pub open spec fn placed(self, position: Position) -> Self
        decreases self,
    {
        ElementModel {
            position,
            children: Seq::new(self.children.len(), |i: int| if 0 <= i < self.children.len() {
                self.children[i].placed(self.child_position(position, i))
            } else {
                self.children[i]
            }),
            ..self
        }
    }

    /// Whether placing the child at `i` reads only sizes that are there and stays within `u64`.
    pub open spec fn child_place_ok(self, position: Position, i: int) -> bool {
        let d = self.along();
        let o = d.spec_opposite();
        let c = self.children[i];
        &&& self.assigned_size.at(o) is Some
        &&& c.assigned_size.at(o) is Some
        &&& c.assigned_size.at(d) is Some
        &&& self.child_excess_across(i) >= 0
        &&& self.offset_after(i) + or_zero(position.at(Axis::of_dimension(d))) <= u64::MAX
        &&& self.across_offset(i) + or_zero(position.at(Axis::of_dimension(o))) <= u64::MAX
        &&& c.size_in(d) + self.child_gaps <= u64::MAX
        &&& self.offset_after(i + 1) <= u64::MAX
    }

    /// Whether placing the tree at `position` reads only positions and sizes
    /// that are there and stays within `u64`.
    pub open spec fn place_ok(self, position: Position) -> bool
        decreases self,
    {
        let d = self.along();
        &&& position.at(Axis::of_dimension(d)) is Some
        &&& position.at(Axis::of_dimension(d.spec_opposite())) is Some
        &&& self.assigned_size.at(d) is Some
        &&& self.calculated_fit_size.at(d) is Some
        &&& self.assigned_in(d) >= self.fit_in(d)
        &&& self.first_offset() <= u64::MAX
        &&& forall|i: int| 0 <= i < self.children.len() ==> self.child_place_ok(position, i)
        &&& forall|i: int| 0 <= i < self.children.len()
            ==> (#[trigger] self.children[i]).place_ok(self.child_position(position, i))
    }
}

} // verus!

verus! {

impl<M> ElementModel<M> {
    /// Whether the tree can be placed does not depend on where its root was before.
    pub proof fn lemma_place_ok_ignores_position(self, position: Position)
        ensures
            (ElementModel { position, ..self }).place_ok(position) == self.place_ok(position),
            (ElementModel { position, ..self }).placed(position) == self.placed(position),
    {
        let moved = ElementModel { position, ..self };
        assert forall|i: int| 0 <= i < self.children.len() implies moved.child_position(position, i)
            == self.child_position(position, i) && moved.child_place_ok(position, i) == self.child_place_ok(position, i) by {
            assert forall|k: int| moved.offset_after(k) == self.offset_after(k) by {
                self.lemma_offset_after_ignores_position(position, k);
            }
        }
        assert((ElementModel { position, ..self }).placed(position).children =~= self.placed(position).children);
    }

    proof fn lemma_offset_after_ignores_position(self, position: Position, k: int)
        ensures
            (ElementModel { position, ..self }).offset_after(k) == self.offset_after(k),
        decreases k,
    {
        if 0 < k <= self.children.len() {
            self.lemma_offset_after_ignores_position(position, k - 1);
        }
    }
}

} // verus!

verus! {

impl<M> ElementModel<M> {
    /// Whether the element and all its descendants have a width and a height.
    pub open spec fn sized_everywhere(self) -> bool
        decreases self,
    {
        &&& self.assigned_size.width is Some
        &&& self.assigned_size.height is Some
        &&& forall|i: int| 0 <= i < self.children.len() ==> (#[trigger] self.children[i]).sized_everywhere()
    }

    /// The rectangle of the element itself.
    pub open spec fn rectangle(self) -> ElementRectangle {
        ElementRectangle {
            position: self.position,
            size: Dimensions { width: or_zero(self.assigned_size.width), height: or_zero(self.assigned_size.height) },
            colour: self.colour,
        }
    }

    /// The rectangles of the tree, each element before its children, the
    /// children in order.
    pub open spec fn rectangles(self) -> Seq<ElementRectangle>
        decreases self, 1int,
    {
        seq![self.rectangle()] + Self::rectangles_of(self.children, self.children.len() as int)
    }

    /// The rectangles of the trees of the first `k` elements of `s`, in order.
    pub open spec fn rectangles_of(s: Seq<Self>, k: int) -> Seq<ElementRectangle>
        decreases s, k,
    {
        if k <= 0 || k > s.len() {
            Seq::empty()
        } else {
            Self::rectangles_of(s, k - 1) + s[k - 1].rectangles()
        }
    }

    /// Where the element's text goes on a screen `screen_height` high, with the
    /// y axis pointing up: its left edge within the left indentation, its
    /// baseline region above the bottom indentation.
    pub open spec fn text_placement(self, screen_height: u32) -> Option<TextPlacement> {
        match self.text {
            Some(text) => Some(TextPlacement {
                key: text.key,
                x: (or_zero(self.position.x) + self.indentation.3) as u64,
                y: (screen_height - or_zero(self.position.y) - or_zero(self.assigned_size.height)
                    + self.indentation.2) as u64,
            }),
            None => None,
        }
    }

    /// Whether placing the texts of the tree reads only positions and sizes
    /// that are there and stays within `u64`.
    pub open spec fn text_place_ok(self, screen_height: u32) -> bool
        decreases self,
    {
        &&& (self.text is Some ==> {
            &&& self.position.x is Some
            &&& self.position.y is Some
            &&& self.assigned_size.height is Some
            &&& or_zero(self.position.x) + self.indentation.3 <= u64::MAX
            &&& screen_height - or_zero(self.position.y) - or_zero(self.assigned_size.height) >= 0
            &&& screen_height - or_zero(self.position.y) - or_zero(self.assigned_size.height) + self.indentation.2 <= u64::MAX
        })
        &&& forall|i: int| 0 <= i < self.children.len() ==> (#[trigger] self.children[i]).text_place_ok(screen_height)
    }

    /// The places of the texts of the tree, each element before its children.
    pub open spec fn text_placements(self, screen_height: u32) -> Seq<TextPlacement>
        decreases self, 1int,
    {
        let own = match self.text_placement(screen_height) {
            Some(p) => seq![p],
            None => Seq::empty(),
        };
        own + Self::text_placements_of(self.children, screen_height, self.children.len() as int)
    }

    pub open spec fn text_placements_of(s: Seq<Self>, screen_height: u32, k: int) -> Seq<TextPlacement>
        decreases s, k,
    {
        if k <= 0 || k > s.len() {
            Seq::empty()
        } else {
            Self::text_placements_of(s, screen_height, k - 1) + s[k - 1].text_placements(screen_height)
        }
    }

    /// Whether the element covers the point `x`, `y`: the point lies within its
    /// rectangle, edges included.
    pub open spec fn covers(self, x: PointerCoordinate, y: PointerCoordinate) -> bool {
        let left = or_zero(self.position.x) as int;
        let top = or_zero(self.position.y) as int;
        &&& left <= x.floor
        &&& x.ceil <= left + or_zero(self.assigned_size.width)
        &&& top <= y.floor
        &&& y.ceil <= top + or_zero(self.assigned_size.height)
    }

    /// The click message for a click at `x`, `y` on the element: that of the
    /// last child covering the point that has one for it (looking into that
    /// child's own children first), and otherwise the element's own.
    pub open spec fn click_message(self, x: PointerCoordinate, y: PointerCoordinate) -> Option<M>
        decreases self, 1int,
    {
        Self::click_message_of(self.children, x, y, self.children.len() as int, self.on_click)
    }

    /// The click message after looking at the first `k` elements of `s`,
    /// starting from `own`.
    pub open spec fn click_message_of(s: Seq<Self>, x: PointerCoordinate, y: PointerCoordinate, k: int, own: Option<M>) -> Option<M>
        decreases s, k,
    {
        if k <= 0 || k > s.len() {
            own
        } else {
            let before = Self::click_message_of(s, x, y, k - 1, own);
            if s[k - 1].covers(x, y) && s[k - 1].click_message(x, y) is Some {
                s[k - 1].click_message(x, y)
            } else {
                before
            }
        }
    }

    /// Whether looking for the click message reads only positions and sizes
    /// that are there: those of every child, and within each covering child the same.
    pub open spec fn click_ok(self, x: PointerCoordinate, y: PointerCoordinate) -> bool
        decreases self,
    {
        forall|i: int| 0 <= i < self.children.len() ==> {
            &&& (#[trigger] self.children[i]).position.x is Some
            &&& self.children[i].position.y is Some
            &&& self.children[i].assigned_size.width is Some
            &&& self.children[i].assigned_size.height is Some
            &&& self.children[i].covers(x, y) ==> self.children[i].click_ok(x, y)
        }
    }
}

} // verus!

use vstd::prelude::*;
use vstd::std_specs::convert::FromSpecImpl;

use crate::renderer::ElementRectangle;
use crate::model::{at_most, increasing_below, lemma_share, same_shape, ElementModel};

verus! {

/// The direction in which an element lays out its children.
#[derive(Clone, Copy, Debug, PartialEq, Eq, Structural)]
pub enum Direction {
    Vertical,
    Horizontal,
}

/// One of the two extents of a rectangle.
#[derive(Clone, Copy, Debug, PartialEq, Eq, Structural)]
pub enum Dimension {
    Width,
    Height,
}

impl Dimension {
    pub open spec fn spec_opposite(self) -> Dimension {
        match self {
            Dimension::Width => Dimension::Height,
            Dimension::Height => Dimension::Width,
        }
    }

    /// The other dimension.
    pub fn opposite(&self) -> (r: Self)
        ensures
            r == self.spec_opposite(),
            r != *self,
    {
        match self {
            Dimension::Width => Dimension::Height,
            Dimension::Height => Dimension::Width,
        }
    }

    /// The dimension that runs along a direction: width for horizontal, height for vertical.
    pub open spec fn of_direction(direction: Direction) -> Dimension {
        match direction {
            Direction::Horizontal => Dimension::Width,
            Direction::Vertical => Dimension::Height,
        }
    }
}

impl From<Direction> for Dimension {
    fn from(value: Direction) -> (r: Self)
        ensures
            r == Dimension::of_direction(value),
    {
        match value {
            Direction::Horizontal => Dimension::Width,
            Direction::Vertical => Dimension::Height,
        }
    }
}

impl FromSpecImpl<Direction> for Dimension {
    open spec fn obeys_from_spec() -> bool {
        true
    }

    open spec fn from_spec(v: Direction) -> Dimension {
        Dimension::of_direction(v)
    }
}

/// A width and a height.
#[derive(Clone, Copy)]
pub struct Dimensions<T: Copy> {
    pub width: T,
    pub height: T,
}

impl<T: Copy> Dimensions<T> {
    /// The component in `dimension`.
    pub open spec fn at(self, dimension: Dimension) -> T {
        match dimension {
            Dimension::Width => self.width,
            Dimension::Height => self.height,
        }
    }

    /// These dimensions with the component in `dimension` replaced by `value`.
    pub open spec fn with(self, dimension: Dimension, value: T) -> Dimensions<T> {
        match dimension {
            Dimension::Width => Dimensions { width: value, height: self.height },
            Dimension::Height => Dimensions { width: self.width, height: value },
        }
    }

    fn get(&self, dimension: Dimension) -> (r: T)
        ensures
            r == self.at(dimension),
    {
        match dimension {
            Dimension::Width => self.width,
            Dimension::Height => self.height,
        }
    }

    fn set(&mut self, dimension: Dimension, value: T)
        ensures
            *final(self) == old(self).with(dimension, value),
    {
        match dimension {
            Dimension::Width => self.width = value,
            Dimension::Height => self.height = value,
        }
    }
}

impl<T: Copy> Dimensions<Option<T>> {
    /// Both components absent.
    pub fn none() -> (r: Self)
        ensures
            r.width is None,
            r.height is None,
    {
        Dimensions { width: None, height: None }
    }

    /// Both components, which must be present.
    pub fn unwrap_contents(self) -> (r: Dimensions<T>)
        requires
            self.width is Some,
            self.height is Some,
        ensures
            Some(r.width) == self.width,
            Some(r.height) == self.height,
    {
        Dimensions { width: self.width.unwrap(), height: self.height.unwrap() }
    }
}

/// One of the two coordinate axes.
#[derive(Clone, Copy, Debug, PartialEq, Eq, Structural)]
pub enum Axis {
    X,
    Y,
}

impl Axis {
    /// The axis along which a dimension is measured: x for width, y for height.
    pub open spec fn of_dimension(dimension: Dimension) -> Axis {
        match dimension {
            Dimension::Width => Axis::X,
            Dimension::Height => Axis::Y,
        }
    }
}

impl From<Dimension> for Axis {
    fn from(value: Dimension) -> (r: Self)
        ensures
            r == Axis::of_dimension(value),
    {
        match value {
            Dimension::Width => Axis::X,
            Dimension::Height => Axis::Y,
        }
    }
}

impl FromSpecImpl<Dimension> for Axis {
    open spec fn obeys_from_spec() -> bool {
        true
    }

    open spec fn from_spec(v: Dimension) -> Axis {
        Axis::of_dimension(v)
    }
}

/// A point whose coordinates may not be known yet.
#[derive(Clone, Copy, Debug, PartialEq, Eq, Structural)]
pub struct Position {
    pub x: Option<u64>,
    pub y: Option<u64>,
}

impl Position {
    /// The coordinate on `axis`.
    pub open spec fn at(self, axis: Axis) -> Option<u64> {
        match axis {
            Axis::X => self.x,
            Axis::Y => self.y,
        }
    }

    /// This position with the coordinate on `axis` replaced by `value`.
    pub open spec fn with(self, axis: Axis, value: Option<u64>) -> Position {
        match axis {
            Axis::X => Position { x: value, y: self.y },
            Axis::Y => Position { x: self.x, y: value },
        }
    }

    fn get(&self, axis: Axis) -> (r: Option<u64>)
        ensures
            r == self.at(axis),
    {
        match axis {
            Axis::X => self.x,
            Axis::Y => self.y,
        }
    }

    fn set(&mut self, axis: Axis, value: Option<u64>)
        ensures
            *final(self) == old(self).with(axis, value),
    {
        match axis {
            Axis::X => self.x = value,
            Axis::Y => self.y = value,
        }
    }

    fn none() -> (r: Self)
        ensures
            r.x is None,
            r.y is None,
    {
        Position { x: None, y: None }
    }
}

/// Where children are placed within the free space of their parent.
#[derive(Clone, Copy, Debug, PartialEq, Eq, Structural)]
pub enum Alignments {
    Start,
    Centre,
    End,
}

/// An alignment for each axis.
#[derive(Clone, Copy, Debug, PartialEq, Eq, Structural)]
pub struct Alignment {
    pub x: Alignments,
    pub y: Alignments,
}

impl Alignment {
    /// The alignment on `axis`.
    pub open spec fn at(self, axis: Axis) -> Alignments {
        match axis {
            Axis::X => self.x,
            Axis::Y => self.y,
        }
    }

    /// The alignment on `axis`.
    pub fn get(&self, axis: Axis) -> (r: Alignments)
        ensures
            r == self.at(axis),
    {
        match axis {
            Axis::X => self.x,
            Axis::Y => self.y,
        }
    }
}

/// How an element is sized in one dimension.
#[derive(Clone, Copy, Debug, PartialEq, Eq, Structural)]
pub enum Size {
    /// Exactly this many pixels.
    Fixed(u64),
    /// As large as the children need, within the bounds.
    Fit { minimum: Option<u64>, maximum: Option<u64> },
    /// As large as the parent allows, within the bounds.
    Grow { minimum: Option<u64>, maximum: Option<u64> },
    /// As large as the children and the element's text need, within the bounds.
    FitText { minimum: Option<u64>, maximum: Option<u64> },
}

/// Why the children of an element could not be given sizes that fit.
#[derive(Clone, Copy, Debug, PartialEq, Eq, Structural)]
pub enum SizeError {
    CantShrinkChildren(u64),
    CantGrow(),
}

/// A colour whose red, green and blue channels are IEEE-754 single-precision
/// numbers, each held as its bit pattern.
#[derive(Clone, Copy, Debug, PartialEq, Eq, Structural)]
pub struct Colour {
    pub r: u32,
    pub g: u32,
    pub b: u32,
}

/// The bit pattern of the single-precision number 1.0.
pub const CHANNEL_FULL: u32 = 0x3f80_0000u32;

impl Colour {
    /// All channels 0.0.
    pub fn black() -> (c: Self)
        ensures
            c == (Colour { r: 0, g: 0, b: 0 }),
    {
        Colour { r: 0, g: 0, b: 0 }
    }

    /// Red 1.0, the other channels 0.0.
    pub fn red() -> (c: Self)
        ensures
            c == (Colour { r: CHANNEL_FULL, g: 0, b: 0 }),
    {
        Colour { r: CHANNEL_FULL, g: 0, b: 0 }
    }

    /// Green 1.0, the other channels 0.0.
    pub fn green() -> (c: Self)
        ensures
            c == (Colour { r: 0, g: CHANNEL_FULL, b: 0 }),
    {
        Colour { r: 0, g: CHANNEL_FULL, b: 0 }
    }

    /// Blue 1.0, the other channels 0.0.
    pub fn blue() -> (c: Self)
        ensures
            c == (Colour { r: 0, g: 0, b: CHANNEL_FULL }),
    {
        Colour { r: 0, g: 0, b: CHANNEL_FULL }
    }
}


/// What the layout engine knows of a block of text: a key by which its
/// owner finds the text again, the width it would take on one line, and the
/// height it takes.
#[derive(Clone, Copy, Debug, PartialEq, Eq, Structural)]
pub struct TextBox {
    pub key: u64,
    pub ideal_width: u64,
    pub height: u64,
}

/// Where a text goes on the screen: the key of its `TextBox`, and the
/// position of its lower left corner with the y axis pointing up.
#[derive(Clone, Copy, Debug, PartialEq, Eq, Structural)]
pub struct TextPlacement {
    pub key: u64,
    pub x: u64,
    pub y: u64,
}

/// A coordinate of the pointer, given by the whole numbers just below and
/// just above it (the same number where the coordinate is whole).
#[derive(Clone, Copy, Debug, PartialEq, Eq, Structural)]
pub struct PointerCoordinate {
    pub floor: i64,
    pub ceil: i64,
}

/// A rectangle of the layout: an element of the tree with its children,
/// settings, and the sizes and position the layout engine gives it.
pub struct Element<UserMessage> {
    direction: Direction,
    size: Dimensions<Size>,
    colour: Colour,
    children: Vec<Element<UserMessage>>,
    text: Option<TextBox>,
    on_click: Option<UserMessage>,
    child_gaps: u64,
    indentation: (u64, u64, u64, u64),
    alignment: Alignment,
    id: Option<u64>,
    // Working values changed by the layout engine.
    calculated_fit_size: Dimensions<Option<u64>>,
    assigned_size: Dimensions<Option<u64>>,
    position: Position,
    text_minimum: Option<u64>,
    text_ideal: Option<u64>,
}

impl<UserMessage> View for Element<UserMessage> {
    type V = ElementModel<UserMessage>;

    closed spec fn view(&self) -> ElementModel<UserMessage> {
        self.model()
    }
}

impl<UserMessage> Element<UserMessage> {
    closed spec fn model(self) -> ElementModel<UserMessage>
        decreases self,
    {
        ElementModel {
            direction: self.direction,
            size: self.size,
            colour: self.colour,
            children: Seq::new(self.children@.len(), |i: int| if 0 <= i < self.children@.len() {
                self.children@[i].model()
            } else {
                self.children@[i].model_leaf()
            }),
            text: self.text,
            on_click: self.on_click,
            child_gaps: self.child_gaps,
            indentation: self.indentation,
            alignment: self.alignment,
            id: self.id,
            calculated_fit_size: self.calculated_fit_size,
            assigned_size: self.assigned_size,
            position: self.position,
            text_minimum: self.text_minimum,
            text_ideal: self.text_ideal,
        }
    }

    closed spec fn model_leaf(self) -> ElementModel<UserMessage> {
        ElementModel {
            direction: self.direction,
            size: self.size,
            colour: self.colour,
            children: Seq::empty(),
            text: self.text,
            on_click: self.on_click,
            child_gaps: self.child_gaps,
            indentation: self.indentation,
            alignment: self.alignment,
            id: self.id,
            calculated_fit_size: self.calculated_fit_size,
            assigned_size: self.assigned_size,
            position: self.position,
            text_minimum: self.text_minimum,
            text_ideal: self.text_ideal,
        }
    }

    /// Whether two elements agree on everything but their children.
    closed spec fn same_but_children(self, other: Self) -> bool {
        &&& self.direction == other.direction
        &&& self.size == other.size
        &&& self.colour == other.colour
        &&& self.text == other.text
        &&& self.on_click == other.on_click
        &&& self.child_gaps == other.child_gaps
        &&& self.indentation == other.indentation
        &&& self.alignment == other.alignment
        &&& self.id == other.id
        &&& self.calculated_fit_size == other.calculated_fit_size
        &&& self.assigned_size == other.assigned_size
        &&& self.position == other.position
        &&& self.text_minimum == other.text_minimum
        &&& self.text_ideal == other.text_ideal
    }

    /// An element whose children have the models `cs`, and which otherwise
    /// agrees with an element modelled by `m`, is modelled by `m` with those children.
    proof fn lemma_rebuild(e: &Self, o: &Self, m: ElementModel<UserMessage>, cs: Seq<ElementModel<UserMessage>>)
        requires
            e.same_but_children(*o),
            o@ == m,
            e.children@.len() == cs.len(),
            forall|j: int| 0 <= j < cs.len() ==> (#[trigger] e.children@[j])@ == cs[j],
        ensures
            e@ == (ElementModel { children: cs, ..m }),
    {
        Self::lemma_view(e);
        Self::lemma_view(o);
        assert(e@.children =~= cs);
        assert(e@ =~= (ElementModel { children: cs, ..m }));
    }

    proof fn lemma_same_children(a: &Self, b: &Self)
        requires
            a.children == b.children,
        ensures
            a@.children == b@.children,
    {
        Self::lemma_view(a);
        Self::lemma_view(b);
        assert(a@.children =~= b@.children);
    }

    proof fn lemma_view(e: &Self)
        ensures
            e@.children.len() == e.children@.len(),
            forall|i: int| 0 <= i < e.children@.len() ==> #[trigger] e@.children[i] == e.children@[i]@,
            e@.direction == e.direction,
            e@.size == e.size,
            e@.colour == e.colour,
            e@.text == e.text,
            e@.on_click == e.on_click,
            e@.child_gaps == e.child_gaps,
            e@.indentation == e.indentation,
            e@.alignment == e.alignment,
            e@.id == e.id,
            e@.calculated_fit_size == e.calculated_fit_size,
            e@.assigned_size == e.assigned_size,
            e@.position == e.position,
            e@.text_minimum == e.text_minimum,
            e@.text_ideal == e.text_ideal,
    {
    }
}

impl<UserMessage: Clone> Element<UserMessage> {
    /// A new element with the given direction, sizing, colour and children;
    /// no text, no click message, no gaps or indentation, aligned to the start,
    /// and nothing measured yet.
    pub fn new(
        direction: Direction,
        width: Size,
        height: Size,
        colour: Colour,
        children: Vec<Element<UserMessage>>,
    ) -> (e: Self)
        ensures
            e@ == (ElementModel {
                direction,
                size: Dimensions { width, height },
                colour,
                children: children@.map_values(|c: Element<UserMessage>| c@),
                text: None,
                on_click: None,
                child_gaps: 0,
                indentation: (0, 0, 0, 0),
                alignment: Alignment { x: Alignments::Start, y: Alignments::Start },
                id: None,
                calculated_fit_size: Dimensions { width: None, height: None },
                assigned_size: Dimensions { width: None, height: None },
                position: Position { x: None, y: None },
                text_minimum: None,
                text_ideal: None,
            }),
    {
        let e = Element {
            direction,
            size: Dimensions { width, height },
            colour,
            children,
            text: None,
            on_click: None,
            child_gaps: 0,
            indentation: (0, 0, 0, 0),
            alignment: Alignment { x: Alignments::Start, y: Alignments::Start },
            id: None,
            calculated_fit_size: Dimensions::none(),
            assigned_size: Dimensions::none(),
            position: Position::none(),
            text_minimum: None,
            text_ideal: None,
        };
        proof {
            Self::lemma_view(&e);
            assert(e@.children =~= children@.map_values(|c: Element<UserMessage>| c@));
        }
        e
    }

    /// The element with this text.
    pub fn text(self, text: TextBox) -> (e: Self)
        ensures
            e@ == (ElementModel { text: Some(text), ..self@ }),
    {
        let mut e = self;
        e.text = Some(text);
        proof { Self::lemma_same_children(&self, &e); }
        e
    }

    /// The element with this message for a click on it.
    pub fn on_click(self, on_click: UserMessage) -> (e: Self)
        ensures
            e@ == (ElementModel { on_click: Some(on_click), ..self@ }),
    {
        let mut e = self;
        e.on_click = Some(on_click);
        proof { Self::lemma_same_children(&self, &e); }
        e
    }

    /// The element with this gap between consecutive children.
    pub fn child_gaps(self, child_gaps: u64) -> (e: Self)
        ensures
            e@ == (ElementModel { child_gaps, ..self@ }),
    {
        let mut e = self;
        e.child_gaps = child_gaps;
        proof { Self::lemma_same_children(&self, &e); }
        e
    }

    /// The element with this indentation: top, right, bottom and left.
    pub fn indentation(self, top: u64, right: u64, bottom: u64, left: u64) -> (e: Self)
        ensures
            e@ == (ElementModel { indentation: (top, right, bottom, left), ..self@ }),
    {
        let mut e = self;
        e.indentation = (top, right, bottom, left);
        proof { Self::lemma_same_children(&self, &e); }
        e
    }

    /// The element with this alignment of its children.
    pub fn alignment(self, alignment: Alignment) -> (e: Self)
        ensures
            e@ == (ElementModel { alignment, ..self@ }),
    {
        let mut e = self;
        e.alignment = alignment;
        proof { Self::lemma_same_children(&self, &e); }
        e
    }

    /// The element with this identifier.
    pub fn id(self, id: u64) -> (e: Self)
        ensures
            e@ == (ElementModel { id: Some(id), ..self@ }),
    {
        let mut e = self;
        e.id = Some(id);
        proof { Self::lemma_same_children(&self, &e); }
        e
    }
}


impl<UserMessage: Clone> Element<UserMessage> {
    /// Records in every element of the tree the smallest width its text may
    /// have and the width its text would take on one line.
    pub fn calculate_text_data(&mut self)
        requires
            old(self)@.text_data_ok(),
        ensures
            final(self)@ == old(self)@.with_text_data(),
        decreases *old(self),
    {
        proof { Self::lemma_view(self); }
        match &self.text {
            Some(text) => {
                self.text_minimum = Some(20);
                self.text_ideal = Some(text.ideal_width + self.indentation.1 + self.indentation.3);
            },
            None => {
                self.text_minimum = None;
                self.text_ideal = None;
            },
        }
        let ghost head = *self;
        let n = self.children.len();
        for i in 0..n
            invariant
                n == self.children@.len(),
                n == old(self).children@.len(),
                head.children == old(self).children,
                self.same_but_children(head),
                forall|j: int| 0 <= j < i ==> (#[trigger] self.children@[j])@ == old(self).children@[j]@.with_text_data(),
                forall|j: int| i <= j < n ==> #[trigger] self.children@[j] == old(self).children@[j],
                old(self)@.text_data_ok(),
        {
            proof {
                Self::lemma_view(old(self));
                assert(old(self)@.children[i as int] == old(self).children@[i as int]@);
            }
            self.children[i].calculate_text_data();
        }
        proof {
            Self::lemma_view(self);
            Self::lemma_view(old(self));
            assert(self@.children =~= old(self)@.with_text_data().children);
            assert(self@ =~= old(self)@.with_text_data());
        }
    }
}

impl<UserMessage: Clone> Element<UserMessage> {
    fn calculate_text_height(&self) -> (h: u64)
        requires
            self@.text_height() <= u64::MAX,
        ensures
            h == self@.text_height(),
    {
        proof { Self::lemma_view(self); }
        match &self.text {
            Some(text) => text.height + self.indentation.0 + self.indentation.2,
            None => 0,
        }
    }

    fn get_minimum_size(&self, dimension: Dimension) -> (m: u64)
        ensures
            m == self@.minimum_size(dimension),
    {
        proof { Self::lemma_view(self); }
        match self.size.get(dimension) {
            Size::Fixed(size) => size,
            Size::Fit { minimum, maximum: _ } => minimum.unwrap_or(0),
            Size::Grow { minimum, maximum: _ } => minimum.unwrap_or(0),
            Size::FitText { minimum, maximum: _ } => match dimension {
                Dimension::Width => if minimum.unwrap_or(0) > self.text_minimum.unwrap_or(0) {
                    minimum.unwrap_or(0)
                } else {
                    self.text_minimum.unwrap_or(0)
                },
                Dimension::Height => minimum.unwrap_or(0),
            },
        }
    }

    fn get_maximum_size(&self, dimension: Dimension) -> (m: Option<u64>)
        ensures
            m == self@.maximum_size(dimension),
    {
        proof { Self::lemma_view(self); }
        match self.size.get(dimension) {
            Size::Fixed(size) => Some(size),
            Size::Fit { minimum: _, maximum } => maximum,
            Size::Grow { minimum: _, maximum } => maximum,
            Size::FitText { minimum: _, maximum } => maximum,
        }
    }

    fn calculate_fit_size_along_axis(&mut self, dimension: Dimension) -> (size: u64)
        requires
            old(self)@.is_along(dimension),
            old(self)@.fit_ok(dimension),
        ensures
            size == old(self)@.fit_content(dimension),
            final(self)@ == (ElementModel { children: old(self)@.children_fitted(dimension), ..old(self)@ }),
        decreases *old(self), 0int,
    {
        proof { Self::lemma_view(self); }
        let ghost m = old(self)@;
        let mut size: u64 = 0;
        let number_of_children: u64 = self.children.len() as u64;
        proof {
            ElementModel::lemma_fit_sum_monotone(m.children, dimension, 0, m.children.len() as int);
        }
        size += self.child_gaps * (if number_of_children > 1 { number_of_children - 1 } else { 0 });
        let ghost head = *self;
        let n = self.children.len();
        for i in 0..n
            invariant
                n == self.children@.len(),
                n == old(self).children@.len(),
                m == old(self)@,
                m.is_along(dimension),
                m.fit_ok(dimension),
                m.children.len() == n,
                forall|j: int| 0 <= j < n ==> #[trigger] m.children[j] == old(self).children@[j]@,
                head.children == old(self).children,
                self.same_but_children(head),
                head.same_but_children(*old(self)),
                size == m.gap_total() + ElementModel::fit_sum(m.children, dimension, i as int),
                forall|j: int| 0 <= j < i ==> (#[trigger] self.children@[j])@ == m.children[j].fitted(dimension),
                forall|j: int| i <= j < n ==> #[trigger] self.children@[j] == old(self).children@[j],
        {
            proof {
                ElementModel::lemma_fit_sum_monotone(m.children, dimension, i + 1, n as int);
            }
            let child_size = self.children[i].calculate_fit_size(dimension);
            size += child_size;
        }
        proof {
            Self::lemma_view(self);
            assert(self@.children =~= m.children_fitted(dimension));
            assert(self@ =~= (ElementModel { children: m.children_fitted(dimension), ..m }));
        }
        size
    }

    fn calculate_fit_size_across_axis(&mut self, dimension: Dimension) -> (size: u64)
        requires
            !old(self)@.is_along(dimension),
            old(self)@.fit_ok(dimension),
        ensures
            size == old(self)@.fit_content(dimension),
            final(self)@ == (ElementModel { children: old(self)@.children_fitted(dimension), ..old(self)@ }),
        decreases *old(self), 0int,
    {
        proof { Self::lemma_view(self); }
        let ghost m = old(self)@;
        let mut size: u64 = 0;
        let ghost head = *self;
        let n = self.children.len();
        for i in 0..n
            invariant
                n == self.children@.len(),
                n == old(self).children@.len(),
                m == old(self)@,
                !m.is_along(dimension),
                m.fit_ok(dimension),
                m.children.len() == n,
                forall|j: int| 0 <= j < n ==> #[trigger] m.children[j] == old(self).children@[j]@,
                head.children == old(self).children,
                self.same_but_children(head),
                head.same_but_children(*old(self)),
                size == ElementModel::fit_max(m.children, dimension, i as int),
                forall|j: int| 0 <= j < i ==> (#[trigger] self.children@[j])@ == m.children[j].fitted(dimension),
                forall|j: int| i <= j < n ==> #[trigger] self.children@[j] == old(self).children@[j],
        {
            let child_size = self.children[i].calculate_fit_size(dimension);
            if child_size > size {
                size = child_size
            };
        }
        proof {
            Self::lemma_view(self);
            assert(self@.children =~= m.children_fitted(dimension));
            assert(self@ =~= (ElementModel { children: m.children_fitted(dimension), ..m }));
        }
        size
    }

    /// Measures the tree in `dimension`, bottom up: each element records the
    /// size that its content, indentation and text need, and is assigned that
    /// size within its minimum and maximum. Returns the size assigned to `self`.
    pub fn calculate_fit_size(&mut self, dimension: Dimension) -> (size: u64)
        requires
            old(self)@.fit_ok(dimension),
        ensures
            size == old(self)@.fit_size(dimension),
            final(self)@ == old(self)@.fitted(dimension),
        decreases *old(self), 1int,
    {
        proof { Self::lemma_view(self); }
        let ghost m = old(self)@;
        let (top, right, bottom, left) = self.indentation;
        let mut size = match (dimension, self.direction) {
            (Dimension::Width, Direction::Horizontal) => self.calculate_fit_size_along_axis(dimension) + right + left,
            (Dimension::Width, Direction::Vertical) => self.calculate_fit_size_across_axis(dimension) + right + left,
            (Dimension::Height, Direction::Horizontal) => self.calculate_fit_size_across_axis(dimension) + top + bottom,
            (Dimension::Height, Direction::Vertical) => self.calculate_fit_size_along_axis(dimension) + top + bottom,
        };
        proof { Self::lemma_view(self); }
        if let Size::FitText { minimum: _, maximum: _ } = self.size.get(dimension) {
            if let Dimension::Width = dimension {
                if size < self.text_ideal.unwrap() {
                    size = self.text_ideal.unwrap();
                }
            }
            if let Dimension::Height = dimension {
                let text_height = self.calculate_text_height();
                if size < text_height {
                    size = text_height
                }
            }
        }
        assert(size == m.fit_measured(dimension));
        self.calculated_fit_size.set(dimension, Some(size));
        let minumum = self.get_minimum_size(dimension);
        if size < minumum {
            size = minumum;
        };
        if let Some(maximum) = self.get_maximum_size(dimension) {
            if size > maximum {
                size = maximum
            }
        }
        self.assigned_size.set(dimension, Some(size));
        proof {
            Self::lemma_view(self);
            assert(self@ =~= m.fitted(dimension));
        }
        size
    }
}

impl<UserMessage: Clone> Element<UserMessage> {
    fn set_assigned(&mut self, dimension: Dimension, value: u64)
        ensures
            final(self)@ == old(self)@.with_size(dimension, value as int),
    {
        self.assigned_size.set(dimension, Some(value));
        proof {
            Self::lemma_view(self);
            Self::lemma_view(old(self));
            assert(self@.children =~= old(self)@.children);
            assert(self@ =~= old(self)@.with_size(dimension, value as int));
        }
    }

    fn set_fit(&mut self, dimension: Dimension, value: u64)
        ensures
            final(self)@ == old(self)@.with_children_fit(old(self)@.children, dimension, value as int),
    {
        self.calculated_fit_size.set(dimension, Some(value));
        proof {
            Self::lemma_view(self);
            Self::lemma_view(old(self));
            assert(self@.children =~= old(self)@.children);
            assert(self@ =~= old(self)@.with_children_fit(old(self)@.children, dimension, value as int));
        }
    }

    fn growable_children(&self, dimension: Dimension) -> (v: Vec<usize>)
        requires
            ElementModel::grow_ready(self@.children, dimension, u64::MAX as int),
        ensures
            v@ == ElementModel::growable(self@.children, dimension, self@.children.len() as int),
    {
        proof { Self::lemma_view(self); }
        let mut v: Vec<usize> = Vec::new();
        let n = self.children.len();
        for i in 0..n
            invariant
                n == self.children@.len(),
                n == self@.children.len(),
                forall|j: int| 0 <= j < n ==> #[trigger] self@.children[j] == self.children@[j]@,
                ElementModel::grow_ready(self@.children, dimension, u64::MAX as int),
                v@ == ElementModel::growable(self@.children, dimension, i as int),
        {
            let child = &self.children[i];
            proof {
                Self::lemma_view(child);
                assert(self@.children[i as int] == child@);
            }
            match child.size.get(dimension) {
                Size::Grow { minimum: _, maximum: _ } => {
                    let keep = match child.get_maximum_size(dimension) {
                        Some(maximum) => child.assigned_size.get(dimension).unwrap() < maximum,
                        None => true,
                    };
                    if keep {
                        v.push(i);
                    }
                },
                _ => {},
            }
        }
        v
    }

    fn shrinkable_children(&self, dimension: Dimension) -> (v: Vec<usize>)
        requires
            ElementModel::shrink_ready(self@.children, dimension),
        ensures
            v@ == ElementModel::shrinkable(self@.children, dimension, self@.children.len() as int),
    {
        proof { Self::lemma_view(self); }
        let mut v: Vec<usize> = Vec::new();
        let n = self.children.len();
        for i in 0..n
            invariant
                n == self.children@.len(),
                n == self@.children.len(),
                forall|j: int| 0 <= j < n ==> #[trigger] self@.children[j] == self.children@[j]@,
                ElementModel::shrink_ready(self@.children, dimension),
                v@ == ElementModel::shrinkable(self@.children, dimension, i as int),
        {
            let child = &self.children[i];
            proof {
                Self::lemma_view(child);
                assert(self@.children[i as int] == child@);
            }
            let keep = match child.size.get(dimension) {
                Size::Fit { minimum: _, maximum: _ } => child.assigned_size.get(dimension).unwrap()
                    > child.get_minimum_size(dimension),
                Size::FitText { minimum: _, maximum: _ } => child.assigned_size.get(dimension).unwrap()
                    > child.get_minimum_size(dimension),
                _ => false,
            };
            if keep {
                v.push(i);
            }
        }
        v
    }

    fn grow_bounds(&self, dimension: Dimension, idx: &Vec<usize>) -> (r: (u64, u64))
        requires
            forall|j: int| 0 <= j < idx@.len() ==> #[trigger] idx@[j] < self@.children.len(),
            forall|j: int| 0 <= j < idx@.len() ==> (#[trigger] self@.children[idx@[j] as int]).assigned_size.at(dimension) is Some,
        ensures
            (r.0 as int, r.1 as int) == ElementModel::grow_bounds(self@.children, dimension, idx@, idx@.len() as int),
    {
        proof { Self::lemma_view(self); }
        let mut smallest: u64 = u64::MAX;
        let mut second_smallest: u64 = u64::MAX;
        for k in 0..idx.len()
            invariant
                self@.children.len() == self.children@.len(),
                forall|j: int| 0 <= j < self@.children.len() ==> #[trigger] self@.children[j] == self.children@[j]@,
                forall|j: int| 0 <= j < idx@.len() ==> #[trigger] idx@[j] < self@.children.len(),
                forall|j: int| 0 <= j < idx@.len() ==> (#[trigger] self@.children[idx@[j] as int]).assigned_size.at(dimension) is Some,
                (smallest as int, second_smallest as int) == ElementModel::grow_bounds(self@.children, dimension, idx@, k as int),
        {
            let child = &self.children[idx[k]];
            proof {
                Self::lemma_view(child);
                assert(self@.children[idx@[k as int] as int] == child@);
            }
            let assigned_size = child.assigned_size.get(dimension).unwrap();
            if assigned_size < smallest {
                second_smallest = smallest;
                smallest = assigned_size;
            };
            if assigned_size < second_smallest && assigned_size > smallest {
                second_smallest = assigned_size;
            };
            if let Some(maximum) = child.get_maximum_size(dimension) {
                if maximum < second_smallest {
                    second_smallest = maximum;
                }
            }
        }
        (smallest, second_smallest)
    }

    fn shrink_bounds(&self, dimension: Dimension, idx: &Vec<usize>) -> (r: (u64, u64))
        requires
            forall|j: int| 0 <= j < idx@.len() ==> #[trigger] idx@[j] < self@.children.len(),
            forall|j: int| 0 <= j < idx@.len() ==> (#[trigger] self@.children[idx@[j] as int]).assigned_size.at(dimension) is Some,
        ensures
            (r.0 as int, r.1 as int) == ElementModel::shrink_bounds(self@.children, dimension, idx@, idx@.len() as int),
    {
        proof { Self::lemma_view(self); }
        let mut largest: u64 = 0;
        let mut second_largest: u64 = 0;
        for k in 0..idx.len()
            invariant
                self@.children.len() == self.children@.len(),
                forall|j: int| 0 <= j < self@.children.len() ==> #[trigger] self@.children[j] == self.children@[j]@,
                forall|j: int| 0 <= j < idx@.len() ==> #[trigger] idx@[j] < self@.children.len(),
                forall|j: int| 0 <= j < idx@.len() ==> (#[trigger] self@.children[idx@[j] as int]).assigned_size.at(dimension) is Some,
                (largest as int, second_largest as int) == ElementModel::shrink_bounds(self@.children, dimension, idx@, k as int),
        {
            let child = &self.children[idx[k]];
            proof {
                Self::lemma_view(child);
                assert(self@.children[idx@[k as int] as int] == child@);
            }
            let assigned_size = child.assigned_size.get(dimension).unwrap();
            if assigned_size > largest {
                second_largest = largest;
                largest = assigned_size;
            };
            if assigned_size > second_largest && assigned_size < largest {
                second_largest = assigned_size;
            };
            let minimum = child.get_minimum_size(dimension);
            if minimum > second_largest {
                second_largest = minimum;
            }
        }
        (largest, second_largest)
    }

    fn children_sized_at(&self, dimension: Dimension, idx: &Vec<usize>, level: u64) -> (v: Vec<usize>)
        requires
            forall|j: int| 0 <= j < idx@.len() ==> #[trigger] idx@[j] < self@.children.len(),
            forall|j: int| 0 <= j < idx@.len() ==> (#[trigger] self@.children[idx@[j] as int]).assigned_size.at(dimension) is Some,
        ensures
            v@ == ElementModel::sized_at(self@.children, dimension, idx@, level as int, idx@.len() as int),
    {
        proof { Self::lemma_view(self); }
        let mut v: Vec<usize> = Vec::new();
        for k in 0..idx.len()
            invariant
                self@.children.len() == self.children@.len(),
                forall|j: int| 0 <= j < self@.children.len() ==> #[trigger] self@.children[j] == self.children@[j]@,
                forall|j: int| 0 <= j < idx@.len() ==> #[trigger] idx@[j] < self@.children.len(),
                forall|j: int| 0 <= j < idx@.len() ==> (#[trigger] self@.children[idx@[j] as int]).assigned_size.at(dimension) is Some,
                v@ == ElementModel::sized_at(self@.children, dimension, idx@, level as int, k as int),
        {
            let child = &self.children[idx[k]];
            proof {
                Self::lemma_view(child);
                assert(self@.children[idx@[k as int] as int] == child@);
            }
            if child.assigned_size.get(dimension).unwrap() == level {
                v.push(idx[k]);
            }
        }
        v
    }
}

impl<UserMessage: Clone> Element<UserMessage> {
    /// Adds `amount` to (or, where `grow` is false, takes it from) the size in
    /// `dimension` of each child whose index is in `chosen`.
    fn resize_children(&mut self, dimension: Dimension, chosen: &Vec<usize>, amount: u64, grow: bool)
        requires
            increasing_below(chosen@, old(self)@.children.len() as int),
            forall|p: int| 0 <= p < chosen@.len() ==> {
                let c = #[trigger] old(self)@.children[chosen@[p] as int];
                &&& c.assigned_size.at(dimension) is Some
                &&& grow ==> c.size_in(dimension) + amount <= u64::MAX
                &&& !grow ==> c.size_in(dimension) >= amount
            },
        ensures
            final(self)@ == (ElementModel {
                children: ElementModel::resize_chosen(old(self)@.children, dimension, chosen@, if grow { amount as int } else { -amount }),
                ..old(self)@
            }),
    {
        proof { Self::lemma_view(self); }
        let ghost m = old(self)@;
        let ghost change: int = if grow { amount as int } else { -amount };
        let ghost head = *self;
        let n = self.children.len();
        for k in 0..chosen.len()
            invariant
                n == self.children@.len(),
                n == m.children.len(),
                m == old(self)@,
                self.same_but_children(head),
                head.same_but_children(*old(self)),
                increasing_below(chosen@, n as int),
                forall|p: int| 0 <= p < chosen@.len() ==> {
                    let c = #[trigger] m.children[chosen@[p] as int];
                    &&& c.assigned_size.at(dimension) is Some
                    &&& grow ==> c.size_in(dimension) + amount <= u64::MAX
                    &&& !grow ==> c.size_in(dimension) >= amount
                },
                change == if grow { amount as int } else { -amount },
                forall|j: int| 0 <= j < n ==> (#[trigger] self.children@[j])@
                    == ElementModel::resize_chosen(m.children, dimension, chosen@.take(k as int), change)[j],
        {
            let index = chosen[k];
            proof {
                assert(self.children@[index as int]@ == m.children[index as int]) by {
                    if chosen@.take(k as int).contains(index) {
                        let p = choose|p: int| 0 <= p < k && chosen@.take(k as int)[p] == index;
                        assert(chosen@[p] < chosen@[k as int]);
                    }
                }
                let c = m.children[index as int];
                assert(c == m.children[chosen@[k as int] as int]);
            }
            let current = self.children[index].assigned_size.get(dimension).unwrap();
            proof {
                Self::lemma_view(&self.children@[index as int]);
            }
            let updated = if grow { current + amount } else { current - amount };
            self.children[index].set_assigned(dimension, updated);
            proof {
                assert forall|j: int| 0 <= j < n implies (#[trigger] self.children@[j])@
                    == ElementModel::resize_chosen(m.children, dimension, chosen@.take(k + 1), change)[j] by {
                    assert(chosen@.take(k + 1) =~= chosen@.take(k as int).push(index));
                    if j != index as int {
                        assert(chosen@.take(k + 1).contains(j as usize) == chosen@.take(k as int).contains(j as usize));
                    } else {
                        assert(chosen@.take(k + 1)[k as int] == index);
                        assert(chosen@.take(k + 1).contains(index));
                    }
                }
            }
        }
        proof {
            Self::lemma_view(self);
            Self::lemma_view(old(self));
            assert(chosen@.take(chosen@.len() as int) =~= chosen@);
            assert(self@.children =~= ElementModel::resize_chosen(m.children, dimension, chosen@, change));
            assert(self@ =~= (ElementModel { children: ElementModel::resize_chosen(m.children, dimension, chosen@, change), ..m }));
        }
    }
}

impl<UserMessage: Clone> Element<UserMessage> {
    /// One round of growing (see `ElementModel::grow_round`); false, with
    /// nothing changed, where no child can grow.
    #[verifier::rlimit(50)]
    fn grow_once(&mut self, dimension: Dimension, target: u64) -> (grew: bool)
        requires
            old(self)@.calculated_fit_size.at(dimension) is Some,
            old(self)@.fit_in(dimension) < target,
            ElementModel::grow_ready(old(self)@.children, dimension, old(self)@.fit_in(dimension)),
        ensures
            !grew ==> *final(self) == *old(self),
            !grew <==> ElementModel::growable(old(self)@.children, dimension, old(self)@.children.len() as int).len() == 0,
            grew ==> {
                let (next, next_fit) = ElementModel::grow_round(old(self)@.children, dimension, old(self)@.fit_in(dimension), target as int);
                &&& final(self)@ == old(self)@.with_children_fit(next, dimension, next_fit)
                &&& final(self)@.fit_in(dimension) == next_fit
                &&& old(self)@.fit_in(dimension) < next_fit <= target
                &&& ElementModel::grow_ready(next, dimension, next_fit)
            },
    {
        let ghost cs = old(self)@.children;
        proof { Self::lemma_view(self); }
        let n = self.children.len();
        let fit = self.calculated_fit_size.get(dimension).unwrap();
        let growable = self.growable_children(dimension);
        if growable.len() < 1 {
            return false;
        }
        proof {
            ElementModel::lemma_growable(cs, dimension, n as int);
            ElementModel::lemma_grow_bounds(cs, dimension, growable@, growable@.len() as int);
        }
        let (smallest, second_smallest) = self.grow_bounds(dimension, &growable);
        let mut chosen = self.children_sized_at(dimension, &growable, smallest);
        proof {
            ElementModel::lemma_sized_at(cs, dimension, growable@, smallest as int, growable@.len() as int);
        }
        let ghost level = chosen@;
        let available_growth = target - fit;
        if available_growth < chosen.len() as u64 {
            chosen.truncate(available_growth as usize);
        }
        assert(chosen@ == at_most(level, available_growth as int));
        let available_growth_per_child = available_growth / chosen.len() as u64;
        let amount_children_can_be_grown = second_smallest - smallest;
        let amount = if available_growth_per_child < amount_children_can_be_grown {
            available_growth_per_child
        } else {
            amount_children_can_be_grown
        };
        proof {
            let len = chosen@.len() as int;
            lemma_share(available_growth as int, len);
            assert(amount * len <= available_growth_per_child * len) by (nonlinear_arith)
                requires
                    amount <= available_growth_per_child,
                    len >= 1;
            assert(amount <= amount * len) by (nonlinear_arith)
                requires
                    len >= 1;
            assert forall|p: int| 0 <= p < chosen@.len() implies {
                let c = #[trigger] cs[chosen@[p] as int];
                &&& c.assigned_size.at(dimension) is Some
                &&& c.size_in(dimension) == smallest
                &&& c.size_in(dimension) + amount <= u64::MAX
            } by {
                assert(chosen@[p] == level[p]);
                let j = choose|j: int| 0 <= j < growable@.len() && growable@[j] == level[p];
                assert(cs[growable@[j] as int].can_grow(dimension));
            }
            assert(increasing_below(chosen@, n as int));
        }
        self.resize_children(dimension, &chosen, amount, true);
        let new_fit = fit + amount * chosen.len() as u64;
        self.set_fit(dimension, new_fit);
        proof {
            Self::lemma_view(self);
            assert(ElementModel::grow_ready(self@.children, dimension, new_fit as int)) by {
                let w = choose|w: int| 0 <= w < growable@.len() && cs[growable@[w] as int].size_in(dimension) == smallest;
                assert(cs[growable@[w] as int].can_grow(dimension));
                assert(smallest <= fit);
                assert forall|i: int| 0 <= i < n && (#[trigger] self@.children[i]).size.at(dimension) is Grow
                    implies self@.children[i].assigned_size.at(dimension) is Some
                        && self@.children[i].size_in(dimension) <= new_fit by {
                    if chosen@.contains(i as usize) {
                        let p = choose|p: int| 0 <= p < chosen@.len() && chosen@[p] == i as usize;
                        assert(cs[chosen@[p] as int].size_in(dimension) == smallest);
                    }
                }
            }
            assert(self@ =~= old(self)@.with_children_fit(self@.children, dimension, new_fit as int));
        }
        true
    }

    /// Grows the growable children round by round until they fill `target`
    /// in `dimension` or none can grow further.
    fn grow_children(&mut self, dimension: Dimension, target: u64)
        requires
            old(self)@.calculated_fit_size.at(dimension) is Some,
            old(self)@.fit_in(dimension) < target,
            ElementModel::grow_ready(old(self)@.children, dimension, old(self)@.fit_in(dimension)),
        ensures
            ({
                let (grown, grown_fit) = ElementModel::grow(old(self)@.children, dimension, old(self)@.fit_in(dimension), target as int);
                &&& final(self)@ == old(self)@.with_children_fit(grown, dimension, grown_fit)
                &&& final(self)@.fit_in(dimension) == grown_fit
                &&& grown_fit <= target
            }),
    {
        let ghost m = old(self)@;
        let ghost goal = ElementModel::grow(m.children, dimension, m.fit_in(dimension), target as int);
        loop
            invariant_except_break
                self@.fit_in(dimension) < target,
                ElementModel::grow_ready(self@.children, dimension, self@.fit_in(dimension)),
                goal == ElementModel::grow(self@.children, dimension, self@.fit_in(dimension), target as int),
                self@.calculated_fit_size.at(dimension) is Some,
            invariant
                m == old(self)@,
                self@ == m.with_children_fit(self@.children, dimension, self@.fit_in(dimension)),
                self@.fit_in(dimension) <= target,
            ensures
                goal == (self@.children, self@.fit_in(dimension)),
            decreases target - self@.fit_in(dimension),
        {
            let ghost cs = self@.children;
            let ghost fit = self@.fit_in(dimension);
            if !self.grow_once(dimension, target) {
                break;
            }
            proof { Self::lemma_view(self); }
            if target <= self.calculated_fit_size.get(dimension).unwrap() {
                break;
            }
        }
        proof {
            assert(self@ =~= m.with_children_fit(goal.0, dimension, goal.1));
        }
    }
}

impl<UserMessage: Clone> Element<UserMessage> {
    /// One round of shrinking (see `ElementModel::shrink_round`); false, with
    /// nothing changed, where no child can shrink.
    #[verifier::rlimit(50)]
    fn shrink_once(&mut self, dimension: Dimension, target: u64) -> (shrank: bool)
        requires
            old(self)@.calculated_fit_size.at(dimension) is Some,
            old(self)@.fit_in(dimension) > target,
            ElementModel::shrink_ready(old(self)@.children, dimension),
            ElementModel::shrinkable(old(self)@.children, dimension, old(self)@.children.len() as int).len() > 0
                ==> ElementModel::shrink_round_fits(old(self)@.children, dimension, old(self)@.fit_in(dimension), target as int),
        ensures
            !shrank ==> *final(self) == *old(self),
            !shrank <==> ElementModel::shrinkable(old(self)@.children, dimension, old(self)@.children.len() as int).len() == 0,
            shrank ==> {
                let (next, next_fit) = ElementModel::shrink_round(old(self)@.children, dimension, old(self)@.fit_in(dimension), target as int);
                &&& final(self)@ == old(self)@.with_children_fit(next, dimension, next_fit)
                &&& final(self)@.fit_in(dimension) == next_fit
                &&& target <= next_fit < old(self)@.fit_in(dimension)
                &&& ElementModel::shrink_ready(next, dimension)
            },
    {
        let ghost cs = old(self)@.children;
        proof { Self::lemma_view(self); }
        let n = self.children.len();
        let fit = self.calculated_fit_size.get(dimension).unwrap();
        let shrinkable = self.shrinkable_children(dimension);
        if shrinkable.len() < 1 {
            return false;
        }
        proof {
            ElementModel::lemma_shrinkable(cs, dimension, n as int);
            ElementModel::lemma_shrink_bounds(cs, dimension, shrinkable@, shrinkable@.len() as int);
        }
        let (largest, second_largest) = self.shrink_bounds(dimension, &shrinkable);
        let chosen = self.children_sized_at(dimension, &shrinkable, largest);
        proof {
            ElementModel::lemma_sized_at(cs, dimension, shrinkable@, largest as int, shrinkable@.len() as int);
        }
        let ghost level = chosen@;
        let available_shrinkage = fit - target;
        let available_shrinkage_per_child = available_shrinkage / chosen.len() as u64;
        let amount_children_can_be_shrunk = largest - second_largest;
        let amount = if available_shrinkage_per_child < amount_children_can_be_shrunk {
            available_shrinkage_per_child
        } else {
            amount_children_can_be_shrunk
        };
        proof {
            let len = chosen@.len() as int;
            lemma_share(available_shrinkage as int, len);
            assert(amount * len <= available_shrinkage_per_child * len) by (nonlinear_arith)
                requires
                    amount <= available_shrinkage_per_child,
                    len >= 1;
            assert(amount <= amount * len) by (nonlinear_arith)
                requires
                    len >= 1;
            assert forall|p: int| 0 <= p < chosen@.len() implies {
                let c = #[trigger] cs[chosen@[p] as int];
                &&& c.assigned_size.at(dimension) is Some
                &&& c.size_in(dimension) >= amount
            } by {
                assert(chosen@[p] == level[p]);
                let j = choose|j: int| 0 <= j < shrinkable@.len() && shrinkable@[j] == level[p];
                assert(cs[shrinkable@[j] as int].can_shrink(dimension));
            }
            assert(increasing_below(chosen@, n as int));
        }
        self.resize_children(dimension, &chosen, amount, false);
        let new_fit = fit - amount * chosen.len() as u64;
        self.set_fit(dimension, new_fit);
        proof {
            Self::lemma_view(self);
            assert(ElementModel::shrink_ready(self@.children, dimension)) by {
                assert forall|i: int| 0 <= i < n && ((#[trigger] self@.children[i]).size.at(dimension) is Fit
                    || self@.children[i].size.at(dimension) is FitText)
                    implies self@.children[i].assigned_size.at(dimension) is Some by {
                    if chosen@.contains(i as usize) {
                        let p = choose|p: int| 0 <= p < chosen@.len() && chosen@[p] == i as usize;
                        assert(cs[chosen@[p] as int].assigned_size.at(dimension) is Some);
                    }
                }
            }
            assert(self@ =~= old(self)@.with_children_fit(self@.children, dimension, new_fit as int));
        }
        true
    }

    /// Shrinks the shrinkable children round by round until they fit in
    /// `target` in `dimension` or none can shrink further.
    fn shrink_children(&mut self, dimension: Dimension, target: u64)
        requires
            old(self)@.calculated_fit_size.at(dimension) is Some,
            old(self)@.fit_in(dimension) > target,
            ElementModel::shrink_ready(old(self)@.children, dimension),
            !ElementModel::shrink_stalls(old(self)@.children, dimension, old(self)@.fit_in(dimension), target as int),
        ensures
            ({
                let (shrunk, shrunk_fit) = ElementModel::shrink(old(self)@.children, dimension, old(self)@.fit_in(dimension), target as int);
                &&& final(self)@ == old(self)@.with_children_fit(shrunk, dimension, shrunk_fit)
                &&& final(self)@.fit_in(dimension) == shrunk_fit
                &&& final(self)@.calculated_fit_size.at(dimension) is Some
                &&& shrunk_fit >= target
            }),
    {
        let ghost m = old(self)@;
        let ghost goal = ElementModel::shrink(m.children, dimension, m.fit_in(dimension), target as int);
        loop
            invariant_except_break
                self@.fit_in(dimension) > target,
                ElementModel::shrink_ready(self@.children, dimension),
                !ElementModel::shrink_stalls(self@.children, dimension, self@.fit_in(dimension), target as int),
                goal == ElementModel::shrink(self@.children, dimension, self@.fit_in(dimension), target as int),
            invariant
                m == old(self)@,
                self@ == m.with_children_fit(self@.children, dimension, self@.fit_in(dimension)),
                self@.fit_in(dimension) >= target,
                self@.calculated_fit_size.at(dimension) is Some,
            ensures
                goal == (self@.children, self@.fit_in(dimension)),
            decreases self@.fit_in(dimension) - target,
        {
            if !self.shrink_once(dimension, target) {
                break;
            }
            proof { Self::lemma_view(self); }
            if target >= self.calculated_fit_size.get(dimension).unwrap() {
                break;
            }
        }
        proof {
            assert(self@ =~= m.with_children_fit(goal.0, dimension, goal.1));
        }
    }

    fn calculate_final_size_along_axis(&mut self, dimension: Dimension) -> (r: Result<(), SizeError>)
        requires
            old(self)@.along_ready(dimension),
        ensures
            (final(self)@, r) == old(self)@.along_step(dimension),
    {
        let ghost m = old(self)@;
        proof { Self::lemma_view(self); }
        let target = self.assigned_size.get(dimension).unwrap();
        if target > self.calculated_fit_size.get(dimension).unwrap() {
            self.grow_children(dimension, target);
        }
        proof { Self::lemma_view(self); }
        if target < self.calculated_fit_size.get(dimension).unwrap() {
            self.shrink_children(dimension, target);
            proof { Self::lemma_view(self); }
            if target < self.calculated_fit_size.get(dimension).unwrap() {
                if let Dimension::Width = dimension {
                    if let Size::FitText { minimum: _, maximum: _ } = self.size.get(dimension) {
                        if target > self.get_minimum_size(dimension) {
                            self.set_fit(dimension, target);
                            proof {
                                Self::lemma_view(self);
                                assert(self@ =~= m.along_step(dimension).0);
                            }
                            return Ok(());
                        }
                    }
                }
                proof { assert(self@ =~= m.along_step(dimension).0); }
                return Err(SizeError::CantShrinkChildren(1));
            }
        }
        proof {
            if target == m.fit_in(dimension) {
                assert(*self == *old(self));
            }
            assert(self@ =~= m.along_step(dimension).0);
        }
        Ok(())
    }
}

impl<UserMessage: Clone> Element<UserMessage> {
    fn calculate_final_size_across_axis(&mut self, dimension: Dimension) -> (r: Result<(), SizeError>)
        requires
            old(self)@.across_ready(dimension),
        ensures
            (final(self)@, r) == old(self)@.across_step(dimension),
    {
        let ghost m = old(self)@;
        proof { Self::lemma_view(self); }
        let (top, right, bottom, left) = self.indentation;
        let available_size = match dimension {
            Dimension::Width => self.assigned_size.get(dimension).unwrap() - right - left,
            Dimension::Height => self.assigned_size.get(dimension).unwrap() - top - bottom,
        };
        let ghost avail = available_size as int;
        let ghost head = *self;
        let n = self.children.len();
        for i in 0..n
            invariant
                n == self.children@.len(),
                n == m.children.len(),
                m == old(self)@,
                self.same_but_children(head),
                head.same_but_children(*old(self)),
                avail == available_size,
                avail == m.available_in(dimension),
                m.across_ready(dimension),
                ElementModel::across_children(m.children, dimension, avail, i as int).1 is Ok,
                forall|j: int| 0 <= j < n ==> (#[trigger] self.children@[j])@
                    == ElementModel::across_children(m.children, dimension, avail, i as int).0[j],
        {
            let ghost before = self.children@;
            proof {
                ElementModel::lemma_across_shape(m.children, dimension, avail, i as int);
                Self::lemma_view(&self.children@[i as int]);
                Self::lemma_view(old(self));
                assert(self.children@[i as int]@ == m.children[i as int]);
            }
            let ghost c = m.children[i as int];
            if self.children[i].assigned_size.get(dimension).unwrap() < available_size {
                match self.children[i].size.get(dimension) {
                    Size::Fixed(_) => {},
                    Size::Fit { minimum: _, maximum: _ } => {},
                    Size::FitText { minimum: _, maximum: _ } => {},
                    Size::Grow { minimum: _, maximum: _ } => {
                        let grown = if let Some(maximum) = self.children[i].get_maximum_size(dimension) {
                            if maximum < available_size {
                                maximum
                            } else {
                                available_size
                            }
                        } else {
                            available_size
                        };
                        self.children[i].set_assigned(dimension, grown);
                        proof {
                            if grown as int == c.size_in(dimension) {
                                assert(self.children@[i as int]@ =~= c);
                            }
                        }
                    },
                };
            };
            proof { Self::lemma_view(&self.children@[i as int]); }
            if self.children[i].assigned_size.get(dimension).unwrap() > available_size {
                match self.children[i].size.get(dimension) {
                    Size::Fixed(_) => {
                        proof {
                            Self::lemma_rebuild(self, old(self), m, ElementModel::across_children(m.children, dimension, avail, i as int).0);
                            self.lemma_across_failed(m, dimension, avail, i as int);
                        }
                        return Err(SizeError::CantShrinkChildren(2));
                    },
                    Size::Grow { minimum: _, maximum: _ } => {
                        proof {
                            Self::lemma_rebuild(self, old(self), m, ElementModel::across_children(m.children, dimension, avail, i as int).0);
                            self.lemma_across_failed(m, dimension, avail, i as int);
                        }
                        return Err(SizeError::CantShrinkChildren(3));
                    },
                    Size::Fit { minimum: _, maximum: _ } => {
                        if self.children[i].get_minimum_size(dimension) > available_size {
                            proof {
                                Self::lemma_rebuild(self, old(self), m, ElementModel::across_children(m.children, dimension, avail, i as int).0);
                                self.lemma_across_failed(m, dimension, avail, i as int);
                            }
                            return Err(SizeError::CantShrinkChildren(4));
                        }
                        self.children[i].set_assigned(dimension, available_size);
                    },
                    Size::FitText { minimum: _, maximum: _ } => {
                        if self.children[i].get_minimum_size(dimension) > available_size {
                            proof {
                                Self::lemma_rebuild(self, old(self), m, ElementModel::across_children(m.children, dimension, avail, i as int).0);
                                self.lemma_across_failed(m, dimension, avail, i as int);
                            }
                            return Err(SizeError::CantShrinkChildren(5));
                        }
                        self.children[i].set_assigned(dimension, available_size);
                    },
                };
            };
            proof {
                let next = ElementModel::across_children(m.children, dimension, avail, i + 1);
                assert(c.across_child(dimension, avail) is Ok);
                assert forall|j: int| 0 <= j < n implies (#[trigger] self.children@[j])@ == next.0[j] by {
                    if j != i {
                        assert(self.children@[j] == before[j]);
                    }
                }
            }
        }
        proof {
            ElementModel::lemma_across_shape(m.children, dimension, avail, n as int);
            Self::lemma_rebuild(self, old(self), m, ElementModel::across_children(m.children, dimension, avail, n as int).0);
        }
        Ok(())
    }

    /// Where the child at `i` fails, the state reached is the one that sizing
    /// across the direction ends in.
    proof fn lemma_across_failed(&self, m: ElementModel<UserMessage>, dimension: Dimension, avail: int, i: int)
        requires
            0 <= i < m.children.len(),
            self@ == (ElementModel { children: ElementModel::across_children(m.children, dimension, avail, i).0, ..m }),
            ElementModel::across_children(m.children, dimension, avail, i).1 is Ok,
            m.children[i].across_child(dimension, avail) is Err,
            avail == m.available_in(dimension),
        ensures
            (self@, Err::<(), SizeError>(m.children[i].across_child(dimension, avail)->Err_0)) == m.across_step(dimension),
    {
        ElementModel::lemma_across_failure_stays(m.children, dimension, avail, i + 1, m.children.len() as int);
    }
}

impl<UserMessage: Clone> Element<UserMessage> {
    /// Sizes the tree in `dimension` top down: each element gives its children
    /// their final sizes (growing or shrinking them along its direction,
    /// fitting them to its inner space across it), then each child does the
    /// same. Stops at the first element whose children cannot be made to fit.
    pub fn calculate_final_size(&mut self, dimension: Dimension) -> (r: Result<(), SizeError>)
        requires
            old(self)@.final_ready(dimension),
        ensures
            (final(self)@, r) == old(self)@.finalized(dimension),
        decreases old(self)@.children,
    {
        let ghost m = old(self)@;
        proof { Self::lemma_view(self); }
        let stepped = match (dimension, self.direction) {
            (Dimension::Width, Direction::Horizontal) => self.calculate_final_size_along_axis(dimension),
            (Dimension::Width, Direction::Vertical) => self.calculate_final_size_across_axis(dimension),
            (Dimension::Height, Direction::Horizontal) => self.calculate_final_size_across_axis(dimension),
            (Dimension::Height, Direction::Vertical) => self.calculate_final_size_along_axis(dimension),
        };
        if let Err(e) = stepped {
            return Err(e);
        }
        let ghost st = self@;
        let ghost head = *self;
        proof {
            m.lemma_step_shape(dimension);
            Self::lemma_view(self);
        }
        let n = self.children.len();
        for i in 0..n
            invariant
                m == old(self)@,
                st == m.size_step(dimension).0,
                m.size_step(dimension).1 is Ok,
                n == self.children@.len(),
                n == m.children.len(),
                same_shape(m.children, st.children),
                self.same_but_children(head),
                head@ == st,
                ElementModel::children_ready(m.children, st.children, dimension, n as int),
                ElementModel::finalize_children(m.children, st.children, dimension, i as int).1 is Ok,
                forall|j: int| 0 <= j < n ==> (#[trigger] self.children@[j])@
                    == ElementModel::finalize_children(m.children, st.children, dimension, i as int).0[j],
        {
            let ghost before = self.children@;
            proof {
                ElementModel::lemma_finalize_children_prefix(m.children, st.children, dimension, i as int);
                ElementModel::lemma_children_ready_prefix(m.children, st.children, dimension, i + 1, n as int);
                assert(self.children@[i as int]@ == st.children[i as int]);
                assert(st.children[i as int].children == m.children[i as int].children);
            }
            let r = self.children[i].calculate_final_size(dimension);
            proof {
                let next = ElementModel::finalize_children(m.children, st.children, dimension, i + 1);
                assert forall|j: int| 0 <= j < n implies (#[trigger] self.children@[j])@ == next.0[j] by {
                    if j != i {
                        assert(self.children@[j] == before[j]);
                    }
                }
            }
            if let Err(e) = r {
                proof {
                    ElementModel::lemma_finalize_children_prefix(m.children, st.children, dimension, i + 1);
                    ElementModel::lemma_finalize_failure_stays(m.children, st.children, dimension, i + 1, n as int);
                    Self::lemma_rebuild(self, &head, st, ElementModel::finalize_children(m.children, st.children, dimension, i + 1).0);
                }
                return Err(e);
            }
        }
        proof {
            ElementModel::lemma_finalize_children_prefix(m.children, st.children, dimension, n as int);
            Self::lemma_rebuild(self, &head, st, ElementModel::finalize_children(m.children, st.children, dimension, n as int).0);
            let fin = ElementModel::finalize_children(m.children, st.children, dimension, n as int);
            let u: () = fin.1->Ok_0;
            assert(u == ());
            assert(fin.1 == Ok::<(), SizeError>(()));
            assert(m.finalized(dimension) == (self@, fin.1));
        }
        Ok(())
    }
}

impl<UserMessage: Clone> Element<UserMessage> {
    /// Where the child at `i` goes when `self` is at `position` and the child
    /// starts `cummulative_along` into `self` along `dimension`.
    fn child_position_for(&self, m: Ghost<ElementModel<UserMessage>>, position: Position, dimension: Dimension, i: usize, cummulative_along: u64) -> (p: Position)
        requires
            dimension == m@.along(),
            0 <= i < m@.children.len(),
            m@.child_place_ok(position, i as int),
            position.at(Axis::of_dimension(dimension)) is Some,
            position.at(Axis::of_dimension(dimension.spec_opposite())) is Some,
            cummulative_along == m@.offset_after(i as int),
            ({
                let e = ElementModel { children: m@.children, ..self@ };
                e == m@ && self.children@.len() == m@.children.len() && self.children@[i as int]@ == m@.children[i as int]
            }),
        ensures
            p == m@.child_position(position, i as int),
    {
        proof {
            Self::lemma_view(self);
            Self::lemma_view(&self.children@[i as int]);
        }
        let (top, right, bottom, left) = self.indentation;
        let across_start_indentation = match dimension {
            Dimension::Width => top,
            Dimension::Height => right,
        };
        let across_end_indentation = match dimension {
            Dimension::Width => bottom,
            Dimension::Height => left,
        };
        let along = position.get(Axis::from(dimension)).unwrap();
        let across = position.get(Axis::from(dimension.opposite())).unwrap();
        let child_excess_across = self.assigned_size.get(dimension.opposite()).unwrap()
            - self.children[i].assigned_size.get(dimension.opposite()).unwrap() - across_start_indentation
            - across_end_indentation;
        let mut child_position = Position::none();
        child_position.set(Axis::from(dimension), Some(cummulative_along + along));
        child_position.set(
            Axis::from(dimension.opposite()),
            match self.alignment.get(Axis::from(dimension.opposite())) {
                Alignments::Start => Some(across_start_indentation + across),
                Alignments::Centre => Some(across_start_indentation + child_excess_across / 2 + across),
                Alignments::End => Some(across_start_indentation + child_excess_across + across),
            },
        );
        child_position
    }

    #[verifier::rlimit(50)]
    fn calculate_children_position_dimensioned(&mut self, position: Position, dimension: Dimension)
        requires
            dimension == old(self)@.along(),
            old(self)@.place_ok(position),
        ensures
            final(self)@ == (ElementModel { children: old(self)@.placed(position).children, ..old(self)@ }),
        decreases old(self)@.children, 0int,
    {
        let ghost m = old(self)@;
        proof { Self::lemma_view(self); }
        let (top, right, bottom, left) = self.indentation;
        let along_start_indentation = match dimension {
            Dimension::Width => right,
            Dimension::Height => top,
        };
        let excess_along = self.assigned_size.get(dimension).unwrap() - self.calculated_fit_size.get(dimension).unwrap();
        let mut cummulative_along = match self.alignment.get(Axis::from(dimension)) {
            Alignments::Start => along_start_indentation,
            Alignments::Centre => along_start_indentation + excess_along / 2,
            Alignments::End => along_start_indentation + excess_along,
        };
        let ghost head = *self;
        let n = self.children.len();
        for i in 0..n
            invariant
                m == old(self)@,
                n == self.children@.len(),
                n == m.children.len(),
                self.same_but_children(head),
                head.same_but_children(*old(self)),
                dimension == m.along(),
                forall|j: int| 0 <= j < n ==> #[trigger] m.child_place_ok(position, j),
                position.at(Axis::of_dimension(dimension)) is Some,
                position.at(Axis::of_dimension(dimension.spec_opposite())) is Some,
                forall|j: int| 0 <= j < n ==> (#[trigger] m.children[j]).place_ok(m.child_position(position, j)),
                cummulative_along == m.offset_after(i as int),
                forall|j: int| 0 <= j < i ==> (#[trigger] self.children@[j])@ == m.children[j].placed(m.child_position(position, j)),
                forall|j: int| i <= j < n ==> #[trigger] self.children@[j] == old(self).children@[j],
        {
            proof {
                Self::lemma_view(old(self));
                Self::lemma_view(self);
                Self::lemma_view(&self.children@[i as int]);
                assert(self.children@[i as int]@ == m.children[i as int]);
                assert((ElementModel { children: m.children, ..self@ }) =~= m);
            }
            let child_position = self.child_position_for(Ghost(m), position, dimension, i, cummulative_along);
            proof {
                Self::lemma_view(&self.children@[i as int]);
                assert(m.child_place_ok(position, i as int));
                assert(m.children[i as int].assigned_size.at(dimension) is Some);
                assert(self.children@[i as int]@ == m.children[i as int]);
                assert(self.children@[i as int].assigned_size == m.children[i as int].assigned_size);
                assert(m.offset_after(i + 1) == m.offset_after(i as int) + m.children[i as int].size_in(dimension) + m.child_gaps);
            }
            cummulative_along += self.children[i].assigned_size.get(dimension).unwrap() + self.child_gaps;
            proof {
                assert(m.children[i as int].place_ok(m.child_position(position, i as int)));
            }
            self.children[i].calculate_children_position(child_position);
        }
        proof {
            Self::lemma_rebuild(self, old(self), m, m.placed(position).children);
        }
    }

    /// Places the tree with `self` at `position`: each element puts its
    /// children one after the other along its direction, from the start, the
    /// middle or the end of the free space by its alignment, and aligns each
    /// across the direction.
    pub fn calculate_children_position(&mut self, position: Position)
        requires
            old(self)@.place_ok(position),
        ensures
            final(self)@ == old(self)@.placed(position),
        decreases old(self)@.children, 1int,
    {
        let ghost m = old(self)@;
        self.position = position;
        proof {
            Self::lemma_view(self);
            Self::lemma_view(old(self));
            assert(self@.children =~= m.children);
            assert(self@ =~= (ElementModel { position, ..m }));
            m.lemma_place_ok_ignores_position(position);
        }
        self.calculate_children_position_dimensioned(position, Dimension::from(self.direction));
        proof {
            assert(self@ =~= m.placed(position));
        }
    }
}

impl<UserMessage: Clone> Element<UserMessage> {
    /// Appends the rectangles of the tree to `element_rectangles`, each
    /// element before its children.
    pub fn to_rectangles(&self, element_rectangles: &mut Vec<ElementRectangle>)
        requires
            self@.sized_everywhere(),
        ensures
            final(element_rectangles)@ == old(element_rectangles)@ + self@.rectangles(),
        decreases self@,
    {
        proof { Self::lemma_view(self); }
        element_rectangles.push(
            ElementRectangle { position: self.position, size: self.assigned_size.unwrap_contents(), colour: self.colour },
        );
        let n = self.children.len();
        for i in 0..n
            invariant
                n == self.children@.len(),
                n == self@.children.len(),
                self@.sized_everywhere(),
                forall|j: int| 0 <= j < n ==> #[trigger] self@.children[j] == self.children@[j]@,
                element_rectangles@ == old(element_rectangles)@ + seq![self@.rectangle()]
                    + ElementModel::rectangles_of(self@.children, i as int),
        {
            proof {
                assert(self@.children[i as int] == self.children@[i as int]@);
                assert(self@.children[i as int].sized_everywhere());
            }
            self.children[i].to_rectangles(element_rectangles);
            proof {
                assert(ElementModel::rectangles_of(self@.children, i + 1)
                    == ElementModel::rectangles_of(self@.children, i as int) + self@.children[i as int].rectangles());
                assert(element_rectangles@ =~= old(element_rectangles)@ + seq![self@.rectangle()]
                    + ElementModel::rectangles_of(self@.children, i + 1));
            }
        }
        proof {
            assert(element_rectangles@ =~= old(element_rectangles)@ + self@.rectangles());
        }
    }

    /// Where each text of the tree goes on a screen of `screen_size`, each
    /// element before its children.
    pub fn collect_text_boxes(&self, screen_size: Dimensions<u32>) -> (placements: Vec<TextPlacement>)
        requires
            self@.text_place_ok(screen_size.height),
        ensures
            placements@ == self@.text_placements(screen_size.height),
        decreases self@,
    {
        proof { Self::lemma_view(self); }
        let mut text_boxes: Vec<TextPlacement> = Vec::new();
        match &self.text {
            Some(text) => {
                let text_box = TextPlacement {
                    key: text.key,
                    x: self.position.x.unwrap() + self.indentation.3,
                    y: screen_size.height as u64 - self.position.y.unwrap() - self.assigned_size.height.unwrap()
                        + self.indentation.2,
                };
                text_boxes.push(text_box);
            },
            None => {},
        }
        let n = self.children.len();
        for i in 0..n
            invariant
                n == self.children@.len(),
                n == self@.children.len(),
                self@.text_place_ok(screen_size.height),
                forall|j: int| 0 <= j < n ==> #[trigger] self@.children[j] == self.children@[j]@,
                text_boxes@ == (match self@.text_placement(screen_size.height) {
                    Some(p) => seq![p],
                    None => Seq::empty(),
                }) + ElementModel::text_placements_of(self@.children, screen_size.height, i as int),
        {
            proof {
                assert(self@.children[i as int] == self.children@[i as int]@);
                assert(self@.children[i as int].text_place_ok(screen_size.height));
            }
            let mut child_boxes = self.children[i].collect_text_boxes(screen_size);
            text_boxes.append(&mut child_boxes);
            proof {
                let own = match self@.text_placement(screen_size.height) {
                    Some(p) => seq![p],
                    None => Seq::<TextPlacement>::empty(),
                };
                assert(text_boxes@ =~= own + ElementModel::text_placements_of(self@.children, screen_size.height, i + 1));
            }
        }
        proof {
            let own = match self@.text_placement(screen_size.height) {
                Some(p) => seq![p],
                None => Seq::<TextPlacement>::empty(),
            };
            assert(text_boxes@ =~= own + ElementModel::text_placements_of(self@.children, screen_size.height, n as int));
        }
        text_boxes
    }

    /// The message for a click at `x`, `y`: that of the last child covering
    /// the point that has one (looking into its children first), otherwise
    /// the element's own, cloned.
    pub fn get_on_click(&self, x: PointerCoordinate, y: PointerCoordinate) -> (message: Option<UserMessage>)
        requires
            self@.click_ok(x, y),
        ensures
            message is Some <==> self@.click_message(x, y) is Some,
            message matches Some(m) ==> cloned(self@.click_message(x, y)->Some_0, m),
        decreases self@,
    {
        proof { Self::lemma_view(self); }
        let mut on_click: Option<UserMessage> = None;
        if let Some(on_click_self) = &self.on_click {
            on_click = Some(on_click_self.clone());
        }
        let n = self.children.len();
        for i in 0..n
            invariant
                n == self.children@.len(),
                n == self@.children.len(),
                self@.click_ok(x, y),
                forall|j: int| 0 <= j < n ==> #[trigger] self@.children[j] == self.children@[j]@,
                on_click is Some <==> ElementModel::click_message_of(self@.children, x, y, i as int, self@.on_click) is Some,
                on_click matches Some(m) ==> cloned(ElementModel::click_message_of(self@.children, x, y, i as int, self@.on_click)->Some_0, m),
        {
            let child = &self.children[i];
            proof {
                Self::lemma_view(child);
                assert(self@.children[i as int] == child@);
            }
            let child_x = child.position.x.unwrap() as i128;
            let child_y = child.position.y.unwrap() as i128;
            let width = child.assigned_size.width.unwrap() as i128;
            let height = child.assigned_size.height.unwrap() as i128;
            if (child_x <= x.floor as i128) && (x.ceil as i128 <= child_x + width) {
                if (child_y <= y.floor as i128) && (y.ceil as i128 <= child_y + height) {
                    if let Some(on_click_child) = child.get_on_click(x, y) {
                        on_click = Some(on_click_child);
                    }
                }
            }
        }
        on_click
    }
}

} // verus!
